//! Searching, trimming and line splitting over sequences of characters.
//!
//! Every executable function here works on a window `lo..hi` of a character
//! slice and is specified over the corresponding `subrange` of its view, with
//! positions counted from the start of the window.

use vstd::prelude::*;
use vstd::std_specs::iter::IteratorSpec;
use vstd::string::*;

verus! {

/// `String::push` of the standard library. Taken on trust from its
/// documentation: the string afterwards is the string before with `c`
/// appended at its end.
pub assume_specification[ String::push ](s: &mut String, c: char)
    ensures
        final(s)@ == old(s)@.push(c),
;

/// The characters of `s`, in order.
pub fn chars_of(s: &str) -> (out: Vec<char>)
    ensures
        out@ == s@,
{
    let mut out: Vec<char> = Vec::new();
    let mut it = s.chars();
    loop
        invariant
            out@ + it.remaining() == s@,
            it.obeys_prophetic_iter_laws(),
            it.decrease() is Some,
        decreases it.decrease()->0,
    {
        let ghost before = it;
        match it.next() {
            Some(c) => {
                proof {
                    assert(out@.push(c) + before.remaining().drop_first() =~= out@
                        + before.remaining());
                }
                out.push(c);
            },
            None => {
                proof {
                    assert(out@ + before.remaining() =~= out@);
                }
                return out;
            },
        }
    }
}

/// The string whose characters are `text[lo..hi]`.
pub fn string_of(text: &[char], lo: usize, hi: usize) -> (out: String)
    requires
        lo <= hi <= text@.len(),
    ensures
        out@ == text@.subrange(lo as int, hi as int),
{
    let mut out = String::new();
    let mut i: usize = lo;
    while i < hi
        invariant
            lo <= i <= hi <= text@.len(),
            out@ == text@.subrange(lo as int, i as int),
        decreases hi - i,
    {
        out.push(text[i]);
        proof {
            assert(text@.subrange(lo as int, i as int).push(text@[i as int]) =~= text@.subrange(
                lo as int,
                i + 1,
            ));
        }
        i += 1;
    }
    out
}

/// Unicode's `White_Space` property, by code point.
pub open spec fn is_whitespace(c: char) -> bool {
    let n = c as u32;
    ||| 0x09 <= n <= 0x0D
    ||| n == 0x20
    ||| n == 0x85
    ||| n == 0xA0
    ||| n == 0x1680
    ||| 0x2000 <= n <= 0x200A
    ||| n == 0x2028
    ||| n == 0x2029
    ||| n == 0x202F
    ||| n == 0x205F
    ||| n == 0x3000
}

/// Whether `c` is white space.
pub fn is_blank(c: char) -> (b: bool)
    ensures
        b == is_whitespace(c),
{
    let n: u32 = c as u32;
    (0x09 <= n && n <= 0x0D) || n == 0x20 || n == 0x85 || n == 0xA0 || n == 0x1680 || (0x2000 <= n
        && n <= 0x200A) || n == 0x2028 || n == 0x2029 || n == 0x202F || n == 0x205F || n == 0x3000
}

/// `pat` stands in `text` at position `i`.
pub open spec fn occurs_at(text: Seq<char>, pat: Seq<char>, i: int) -> bool {
    0 <= i && i + pat.len() <= text.len() && text.subrange(i, i + pat.len()) == pat
}

/// `pat` stands in `text` at `i` and nowhere to the left of `i`.
pub open spec fn is_first_occurrence(text: Seq<char>, pat: Seq<char>, i: int) -> bool {
    occurs_at(text, pat, i) && forall|j: int| 0 <= j < i ==> !occurs_at(text, pat, j)
}

/// The leftmost position at which `pat` stands in `text`, if there is one.
pub open spec fn first_occurrence(text: Seq<char>, pat: Seq<char>) -> Option<int> {
    if exists|i: int| occurs_at(text, pat, i) {
        Some(choose|i: int| is_first_occurrence(text, pat, i))
    } else {
        None
    }
}

/// A position that is a first occurrence is the first occurrence.
pub proof fn lemma_first_occurrence(text: Seq<char>, pat: Seq<char>, i: int)
    requires
        is_first_occurrence(text, pat, i),
    ensures
        first_occurrence(text, pat) == Some(i),
{
    let c = choose|k: int| is_first_occurrence(text, pat, k);
    assert(occurs_at(text, pat, i));
    assert(is_first_occurrence(text, pat, c));
    if c < i {
        assert(!occurs_at(text, pat, c));
    }
    if i < c {
        assert(!occurs_at(text, pat, i));
    }
}

/// What `first_occurrence` returns is in range and leftmost.
pub proof fn lemma_first_occurrence_is_first(text: Seq<char>, pat: Seq<char>)
    ensures
        match first_occurrence(text, pat) {
            Some(i) => is_first_occurrence(text, pat, i),
            None => forall|j: int| !occurs_at(text, pat, j),
        },
{
    if exists|i: int| occurs_at(text, pat, i) {
        let w = choose|i: int| occurs_at(text, pat, i);
        lemma_leftmost_exists(text, pat, w);
    }
}

proof fn lemma_leftmost_exists(text: Seq<char>, pat: Seq<char>, w: int)
    requires
        occurs_at(text, pat, w),
    ensures
        exists|i: int| is_first_occurrence(text, pat, i),
    decreases w,
{
    if exists|j: int| 0 <= j < w && occurs_at(text, pat, j) {
        let j = choose|j: int| 0 <= j < w && occurs_at(text, pat, j);
        lemma_leftmost_exists(text, pat, j);
    } else {
        assert(is_first_occurrence(text, pat, w));
    }
}

/// Whether `pat` stands at position `at` of the window `text[lo..hi]`.
pub fn matches_at(text: &[char], lo: usize, hi: usize, pat: &[char], at: usize) -> (b: bool)
    requires
        lo <= hi <= text@.len(),
    ensures
        b == occurs_at(text@.subrange(lo as int, hi as int), pat@, at as int),
{
    let n: usize = hi - lo;
    let m: usize = pat.len();
    if at > n || m > n - at {
        return false;
    }
    let ghost window = text@.subrange(lo as int, hi as int);
    let mut k: usize = 0;
    while k < m
        invariant
            lo <= hi <= text@.len(),
            n == hi - lo,
            m == pat@.len(),
            at <= n,
            m <= n - at,
            k <= m,
            window == text@.subrange(lo as int, hi as int),
            forall|j: int| 0 <= j < k ==> window[at + j] == pat@[j],
        decreases m - k,
    {
        if text[lo + at + k] != pat[k] {
            proof {
                assert(window.subrange(at as int, at + m)[k as int] == window[at + k]);
            }
            return false;
        }
        k += 1;
    }
    proof {
        assert(window.subrange(at as int, at + m) =~= pat@);
    }
    true
}

/// The leftmost position of `pat` in the window `text[lo..hi]`.
pub fn find(text: &[char], lo: usize, hi: usize, pat: &[char]) -> (r: Option<usize>)
    requires
        lo <= hi <= text@.len(),
    ensures
        match r {
            Some(i) => first_occurrence(text@.subrange(lo as int, hi as int), pat@) == Some(
                i as int,
            ),
            None => first_occurrence(text@.subrange(lo as int, hi as int), pat@) is None,
        },
{
    let n: usize = hi - lo;
    let ghost window = text@.subrange(lo as int, hi as int);
    let mut i: usize = 0;
    loop
        invariant
            lo <= hi <= text@.len(),
            n == hi - lo,
            i <= n,
            window == text@.subrange(lo as int, hi as int),
            forall|j: int| 0 <= j < i ==> !occurs_at(window, pat@, j),
        ensures
            forall|j: int| 0 <= j <= n ==> !occurs_at(window, pat@, j),
        decreases n - i,
    {
        if matches_at(text, lo, hi, pat, i) {
            proof {
                lemma_first_occurrence(window, pat@, i as int);
            }
            return Some(i);
        }
        if i == n {
            break ;
        }
        i += 1;
    }
    proof {
        assert(forall|j: int| !occurs_at(window, pat@, j));
    }
    None
}

/// The leftmost position of the character `c` in `text`, if it occurs.
pub open spec fn first_index(text: Seq<char>, c: char) -> Option<int> {
    first_occurrence(text, seq![c])
}

/// `c` stands at `i` exactly when the one-character pattern does.
pub proof fn lemma_occurs_at_char(text: Seq<char>, c: char, i: int)
    ensures
        occurs_at(text, seq![c], i) <==> (0 <= i < text.len() && text[i] == c),
{
    if 0 <= i < text.len() {
        assert(text.subrange(i, i + 1)[0] == text[i]);
        if text[i] == c {
            assert(text.subrange(i, i + 1) =~= seq![c]);
        }
    }
}

/// `c` stands at `i` in `text` and nowhere to the right of `i`.
pub open spec fn is_last_index(text: Seq<char>, c: char, i: int) -> bool {
    0 <= i < text.len() && text[i] == c && forall|j: int| i < j < text.len() ==> text[j] != c
}

/// The rightmost position of the character `c` in `text`, if it occurs.
pub open spec fn last_index(text: Seq<char>, c: char) -> Option<int> {
    if text.contains(c) {
        Some(choose|i: int| is_last_index(text, c, i))
    } else {
        None
    }
}

/// A position that is a last index is the last index.
pub proof fn lemma_last_index(text: Seq<char>, c: char, i: int)
    requires
        is_last_index(text, c, i),
    ensures
        last_index(text, c) == Some(i),
{
    let k = choose|k: int| is_last_index(text, c, k);
    assert(text.contains(c));
    assert(is_last_index(text, c, k));
}

/// The leftmost position of `c` in the window `text[lo..hi]`.
pub fn find_char(text: &[char], lo: usize, hi: usize, c: char) -> (r: Option<usize>)
    requires
        lo <= hi <= text@.len(),
    ensures
        match r {
            Some(i) => first_index(text@.subrange(lo as int, hi as int), c) == Some(i as int),
            None => first_index(text@.subrange(lo as int, hi as int), c) is None,
        },
        r matches Some(i) ==> i < hi - lo && text@[lo + i] == c,
{
    let ghost window = text@.subrange(lo as int, hi as int);
    let mut i: usize = lo;
    while i < hi
        invariant
            lo <= i <= hi <= text@.len(),
            window == text@.subrange(lo as int, hi as int),
            forall|j: int| 0 <= j < i - lo ==> window[j] != c,
        decreases hi - i,
    {
        if text[i] == c {
            proof {
                assert forall|j: int| 0 <= j < i - lo implies !occurs_at(window, seq![c], j) by {
                    lemma_occurs_at_char(window, c, j);
                }
                lemma_occurs_at_char(window, c, i - lo);
                lemma_first_occurrence(window, seq![c], i - lo);
            }
            return Some(i - lo);
        }
        i += 1;
    }
    proof {
        assert forall|j: int| !occurs_at(window, seq![c], j) by {
            lemma_occurs_at_char(window, c, j);
        }
    }
    None
}

/// The rightmost position of `c` in the window `text[lo..hi]`.
pub fn rfind_char(text: &[char], lo: usize, hi: usize, c: char) -> (r: Option<usize>)
    requires
        lo <= hi <= text@.len(),
    ensures
        match r {
            Some(i) => last_index(text@.subrange(lo as int, hi as int), c) == Some(i as int),
            None => last_index(text@.subrange(lo as int, hi as int), c) is None,
        },
        r matches Some(i) ==> i < hi - lo,
{
    let ghost window = text@.subrange(lo as int, hi as int);
    let mut i: usize = hi;
    while i > lo
        invariant
            lo <= i <= hi <= text@.len(),
            window == text@.subrange(lo as int, hi as int),
            forall|j: int| i - lo <= j < hi - lo ==> window[j] != c,
        decreases i - lo,
    {
        i -= 1;
        if text[i] == c {
            proof {
                assert(window[i - lo] == c);
                lemma_last_index(window, c, i - lo);
            }
            return Some(i - lo);
        }
    }
    None
}

/// How many white-space characters `s` begins with.
pub open spec fn leading_blanks(s: Seq<char>) -> nat
    decreases s.len(),
{
    if s.len() > 0 && is_whitespace(s[0]) {
        1 + leading_blanks(s.drop_first())
    } else {
        0
    }
}

/// How many white-space characters `s` ends with.
pub open spec fn trailing_blanks(s: Seq<char>) -> nat
    decreases s.len(),
{
    if s.len() > 0 && is_whitespace(s.last()) {
        1 + trailing_blanks(s.drop_last())
    } else {
        0
    }
}

/// `s` without the white space it begins with.
pub open spec fn trim_start(s: Seq<char>) -> Seq<char> {
    s.skip(leading_blanks(s) as int)
}

/// `s` without the white space it ends with.
pub open spec fn trim_end(s: Seq<char>) -> Seq<char> {
    s.take(s.len() - trailing_blanks(s))
}

/// `s` without the white space at either end.
pub open spec fn trim(s: Seq<char>) -> Seq<char> {
    trim_end(trim_start(s))
}

/// Behind `k` white-space characters the count of leading blanks goes on.
pub proof fn lemma_leading_blanks_step(s: Seq<char>, k: int)
    requires
        0 <= k <= s.len(),
        forall|j: int| 0 <= j < k ==> is_whitespace(s[j]),
    ensures
        leading_blanks(s) == k + leading_blanks(s.skip(k)),
    decreases k,
{
    if k > 0 {
        let t = s.drop_first();
        assert forall|j: int| 0 <= j < k - 1 implies is_whitespace(t[j]) by {
            assert(t[j] == s[j + 1]);
        }
        lemma_leading_blanks_step(t, k - 1);
        assert(t.skip(k - 1) =~= s.skip(k));
    } else {
        assert(s.skip(0) =~= s);
    }
}

/// Before `k` white-space characters the count of trailing blanks goes on.
pub proof fn lemma_trailing_blanks_step(s: Seq<char>, k: int)
    requires
        0 <= k <= s.len(),
        forall|j: int| s.len() - k <= j < s.len() ==> is_whitespace(s[j]),
    ensures
        trailing_blanks(s) == k + trailing_blanks(s.take(s.len() - k)),
    decreases k,
{
    if k > 0 {
        let t = s.drop_last();
        assert forall|j: int| t.len() - (k - 1) <= j < t.len() implies is_whitespace(t[j]) by {
            assert(t[j] == s[j]);
        }
        lemma_trailing_blanks_step(t, k - 1);
        assert(t.take(t.len() - (k - 1)) =~= s.take(s.len() - k));
    } else {
        assert(s.take(s.len() as int) =~= s);
    }
}

/// The trailing blanks end behind any character that is no white space.
pub proof fn lemma_trailing_blanks_stop(s: Seq<char>, k: int)
    requires
        0 <= k < s.len(),
        !is_whitespace(s[k]),
    ensures
        trailing_blanks(s) <= s.len() - (k + 1),
    decreases s.len(),
{
    if is_whitespace(s.last()) {
        lemma_trailing_blanks_stop(s.drop_last(), k);
    }
}

/// Whether every character of `s` is white space.
pub open spec fn is_blank_text(s: Seq<char>) -> bool {
    forall|i: int| 0 <= i < s.len() ==> is_whitespace(#[trigger] s[i])
}

/// Trimming takes white space off both ends of `core`, and no more than
/// that if `core` neither begins nor ends with white space.
pub proof fn lemma_trim_padded(before: Seq<char>, core: Seq<char>, after: Seq<char>)
    requires
        is_blank_text(before),
        is_blank_text(after),
        core.len() > 0 ==> !is_whitespace(core.first()) && !is_whitespace(core.last()),
    ensures
        trim(before + core + after) == core,
{
    let s = before + core + after;
    let rest = core + after;
    lemma_leading_blanks_step(s, before.len() as int);
    assert(s.skip(before.len() as int) =~= rest);
    if core.len() == 0 {
        assert(rest =~= after);
        lemma_leading_blanks_step(after, after.len() as int);
        assert(leading_blanks(after.skip(after.len() as int)) == 0);
        assert(s.skip(s.len() as int) =~= Seq::<char>::empty());
        assert(trim_start(s) =~= Seq::<char>::empty());
        assert(trim(s) =~= core);
    } else {
        assert(rest[0] == core[0]);
        assert(leading_blanks(rest) == 0);
        assert(trim_start(s) == rest);
        assert forall|j: int| rest.len() - after.len() <= j < rest.len() implies is_whitespace(
            rest[j],
        ) by {
            assert(rest[j] == after[j - core.len()]);
        }
        lemma_trailing_blanks_step(rest, after.len() as int);
        assert(rest.take(rest.len() - after.len()) =~= core);
        assert(trailing_blanks(core) == 0);
        assert(trim(s) =~= core);
    }
}

/// White space holds no character that is no white space.
pub proof fn lemma_blank_text_lacks(s: Seq<char>, c: char)
    requires
        is_blank_text(s),
        !is_whitespace(c),
    ensures
        !s.contains(c),
{
}

/// Two texts without `c` make one without `c`.
pub proof fn lemma_concat_lacks(a: Seq<char>, b: Seq<char>, c: char)
    requires
        !a.contains(c),
        !b.contains(c),
    ensures
        !(a + b).contains(c),
{
    let s = a + b;
    assert forall|i: int| 0 <= i < s.len() implies s[i] != c by {
        if i < a.len() {
            assert(s[i] == a[i]);
        } else {
            assert(s[i] == b[i - a.len()]);
        }
    }
}

/// Behind an indentation of white space, trimming at the start leaves
/// what does not begin with white space.
pub proof fn lemma_trim_start_indented(indent: Seq<char>, rest: Seq<char>)
    requires
        is_blank_text(indent),
        rest.len() > 0 ==> !is_whitespace(rest.first()),
    ensures
        trim_start(indent + rest) == rest,
{
    let s = indent + rest;
    lemma_leading_blanks_step(s, indent.len() as int);
    assert(s.skip(indent.len() as int) =~= rest);
    assert(leading_blanks(rest) == 0);
}

/// The first `c` of a text is the one that follows a part without `c`.
pub proof fn lemma_first_index_behind(left: Seq<char>, c: char, right: Seq<char>)
    requires
        !left.contains(c),
    ensures
        first_index(left + seq![c] + right, c) == Some(left.len() as int),
{
    let s = left + seq![c] + right;
    let at = left.len() as int;
    assert(s[at] == c);
    lemma_occurs_at_char(s, c, at);
    assert forall|j: int| 0 <= j < at implies !occurs_at(s, seq![c], j) by {
        lemma_occurs_at_char(s, c, j);
        assert(s[j] == left[j]);
    }
    lemma_first_occurrence(s, seq![c], at);
}

/// The last `c` of a text is the one that a part without `c` follows.
pub proof fn lemma_last_index_before(left: Seq<char>, c: char, right: Seq<char>)
    requires
        !right.contains(c),
    ensures
        last_index(left + seq![c] + right, c) == Some(left.len() as int),
{
    let s = left + seq![c] + right;
    let at = left.len() as int;
    assert(s[at] == c);
    assert forall|j: int| at < j < s.len() implies s[j] != c by {
        assert(s[j] == right[j - at - 1]);
    }
    lemma_last_index(s, c, at);
}

/// The first position of the window `text[lo..hi]` that holds no white
/// space, or `hi` if there is none.
pub fn skip_blanks(text: &[char], lo: usize, hi: usize) -> (r: usize)
    requires
        lo <= hi <= text@.len(),
    ensures
        lo <= r <= hi,
        r - lo == leading_blanks(text@.subrange(lo as int, hi as int)),
        text@.subrange(r as int, hi as int) == trim_start(text@.subrange(lo as int, hi as int)),
{
    let ghost window = text@.subrange(lo as int, hi as int);
    let mut i: usize = lo;
    while i < hi && is_blank(text[i])
        invariant
            lo <= i <= hi <= text@.len(),
            window == text@.subrange(lo as int, hi as int),
            forall|j: int| 0 <= j < i - lo ==> is_whitespace(window[j]),
        decreases hi - i,
    {
        i += 1;
    }
    proof {
        lemma_leading_blanks_step(window, i - lo);
        let rest = window.skip(i - lo);
        if i < hi {
            assert(rest[0] == text@[i as int]);
        }
        assert(leading_blanks(rest) == 0);
        assert(text@.subrange(i as int, hi as int) =~= window.skip(i - lo));
    }
    i
}

/// The end of the window `text[lo..hi]` once the white space it ends with
/// is left out.
pub fn drop_blanks(text: &[char], lo: usize, hi: usize) -> (r: usize)
    requires
        lo <= hi <= text@.len(),
    ensures
        lo <= r <= hi,
        hi - r == trailing_blanks(text@.subrange(lo as int, hi as int)),
        text@.subrange(lo as int, r as int) == trim_end(text@.subrange(lo as int, hi as int)),
{
    let ghost window = text@.subrange(lo as int, hi as int);
    let mut i: usize = hi;
    while i > lo && is_blank(text[i - 1])
        invariant
            lo <= i <= hi <= text@.len(),
            window == text@.subrange(lo as int, hi as int),
            forall|j: int| i - lo <= j < hi - lo ==> is_whitespace(window[j]),
        decreases i - lo,
    {
        i -= 1;
    }
    proof {
        lemma_trailing_blanks_step(window, hi - i);
        let rest = window.take(window.len() - (hi - i));
        if i > lo {
            assert(rest.last() == text@[i - 1]);
        }
        assert(trailing_blanks(rest) == 0);
        assert(text@.subrange(lo as int, i as int) =~= window.take(i - lo));
    }
    i
}

/// The bounds of the window `text[lo..hi]` trimmed at both ends.
pub fn trim_bounds(text: &[char], lo: usize, hi: usize) -> (r: (usize, usize))
    requires
        lo <= hi <= text@.len(),
    ensures
        lo <= r.0 <= r.1 <= hi,
        text@.subrange(r.0 as int, r.1 as int) == trim(text@.subrange(lo as int, hi as int)),
{
    let a = skip_blanks(text, lo, hi);
    let b = drop_blanks(text, a, hi);
    (a, b)
}

} // verus!
