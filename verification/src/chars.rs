//! Character-level text utilities.
//!
//! The codecs in this crate work on `Vec<char>` buffers, whose views are the
//! same `Seq<char>` that `&str` views give, so contracts stated over string
//! views carry over directly.

use vstd::prelude::*;
use vstd::string::*;

verus! {

/// Relies on `String::push`: appends one character to the string.
#[verifier::external_body]
pub fn push_char(s: &mut String, c: char)
    ensures
        final(s)@ == old(s)@.push(c),
{
    s.push(c)
}

/// Copies the characters of a string slice into a vector.
pub fn chars_of(s: &str) -> (r: Vec<char>)
    ensures
        r@ == s@,
{
    let n = s.unicode_len();
    let mut r: Vec<char> = Vec::new();
    let mut i: usize = 0;
    while i < n
        invariant
            n == s@.len(),
            i <= n,
            r@ == s@.subrange(0, i as int),
        decreases n - i,
    {
        r.push(s.get_char(i));
        i = i + 1;
        proof {
            assert(r@ =~= s@.subrange(0, i as int));
        }
    }
    proof {
        assert(r@ =~= s@);
    }
    r
}

/// Builds a string from a vector of characters.
pub fn string_of_chars(v: &Vec<char>) -> (s: String)
    ensures
        s@ == v@,
{
    let mut s = String::new();
    let mut i: usize = 0;
    while i < v.len()
        invariant
            i <= v@.len(),
            s@ == v@.subrange(0, i as int),
        decreases v@.len() - i,
    {
        push_char(&mut s, v[i]);
        i = i + 1;
        proof {
            assert(s@ =~= v@.subrange(0, i as int));
        }
    }
    proof {
        assert(s@ =~= v@);
    }
    s
}

/// Appends every character of `src` to the buffer `dst`.
pub fn extend_chars(dst: &mut Vec<char>, src: &Vec<char>)
    ensures
        final(dst)@ == old(dst)@ + src@,
{
    let mut i: usize = 0;
    while i < src.len()
        invariant
            i <= src@.len(),
            dst@ == old(dst)@ + src@.subrange(0, i as int),
        decreases src@.len() - i,
    {
        dst.push(src[i]);
        i = i + 1;
        proof {
            assert(dst@ =~= old(dst)@ + src@.subrange(0, i as int));
        }
    }
    proof {
        assert(dst@ =~= old(dst)@ + src@);
    }
}

/// Appends every character of the string slice `src` to the buffer `dst`.
pub fn extend_str(dst: &mut Vec<char>, src: &str)
    ensures
        final(dst)@ == old(dst)@ + src@,
{
    let n = src.unicode_len();
    let mut i: usize = 0;
    while i < n
        invariant
            n == src@.len(),
            i <= n,
            dst@ == old(dst)@ + src@.subrange(0, i as int),
        decreases n - i,
    {
        dst.push(src.get_char(i));
        i = i + 1;
        proof {
            assert(dst@ =~= old(dst)@ + src@.subrange(0, i as int));
        }
    }
    proof {
        assert(dst@ =~= old(dst)@ + src@);
    }
}

/// The whitespace characters the parser normalizes away.
pub open spec fn is_ws_char(c: char) -> bool {
    c == ' ' || c == '\t' || c == '\n' || c == '\r'
}

/// Drops leading whitespace.
pub open spec fn trim_front(s: Seq<char>) -> Seq<char>
    decreases s.len(),
{
    if s.len() > 0 && is_ws_char(s[0]) {
        trim_front(s.drop_first())
    } else {
        s
    }
}

/// Drops trailing whitespace.
pub open spec fn trim_back(s: Seq<char>) -> Seq<char>
    decreases s.len(),
{
    if s.len() > 0 && is_ws_char(s.last()) {
        trim_back(s.drop_last())
    } else {
        s
    }
}

/// Drops surrounding whitespace.
pub open spec fn trim_ws(s: Seq<char>) -> Seq<char> {
    trim_back(trim_front(s))
}

pub proof fn lemma_trim_front_skip(s: Seq<char>, i: int)
    requires
        0 <= i <= s.len(),
        forall|j: int| 0 <= j < i ==> is_ws_char(#[trigger] s[j]),
        i == s.len() || !is_ws_char(s[i]),
    ensures
        trim_front(s) == s.skip(i),
    decreases i,
{
    if i == 0 {
        assert(s.skip(0) =~= s);
    } else {
        assert(is_ws_char(s[0]));
        lemma_trim_front_skip(s.drop_first(), i - 1);
        assert(s.drop_first().skip(i - 1) =~= s.skip(i));
    }
}

pub proof fn lemma_trim_back_take(s: Seq<char>, e: int)
    requires
        0 <= e <= s.len(),
        forall|j: int| e <= j < s.len() ==> is_ws_char(#[trigger] s[j]),
        e == 0 || !is_ws_char(s[e - 1]),
    ensures
        trim_back(s) == s.take(e),
    decreases s.len(),
{
    if e == s.len() {
        if s.len() > 0 && is_ws_char(s.last()) {
            assert(e <= s.len() - 1 < s.len());
            assert(false);
        }
        assert(s.take(e) =~= s);
    } else {
        assert(is_ws_char(s[s.len() - 1]));
        lemma_trim_back_take(s.drop_last(), e);
        assert(s.drop_last().take(e) =~= s.take(e));
    }
}

pub proof fn lemma_trim_front_len(s: Seq<char>)
    ensures
        trim_front(s).len() <= s.len(),
        trim_front(s).len() == s.len() ==> trim_front(s) == s,
    decreases s.len(),
{
    if s.len() > 0 && is_ws_char(s[0]) {
        lemma_trim_front_len(s.drop_first());
    }
}

pub proof fn lemma_trim_back_len(s: Seq<char>)
    ensures
        trim_back(s).len() <= s.len(),
        trim_back(s).len() == s.len() ==> trim_back(s) == s,
    decreases s.len(),
{
    if s.len() > 0 && is_ws_char(s.last()) {
        lemma_trim_back_len(s.drop_last());
    }
}

/// A string equal to its own trim is left alone by each half of the trim.
pub proof fn lemma_trim_stable(s: Seq<char>)
    requires
        trim_ws(s) == s,
    ensures
        trim_front(s) == s,
        trim_back(s) == s,
{
    lemma_trim_front_len(s);
    lemma_trim_back_len(trim_front(s));
    assert(trim_front(s).len() == s.len());
    lemma_trim_back_len(s);
}

/// A text with no whitespace at either edge is its own trim.
pub proof fn lemma_trim_noedge(s: Seq<char>)
    requires
        s.len() == 0 || (!is_ws_char(s[0]) && !is_ws_char(s.last())),
    ensures
        trim_ws(s) == s,
{
    assert(trim_front(s) == s);
    assert(trim_back(s) == s);
}

/// A nonempty text equal to its own trim has no whitespace at either edge.
pub proof fn lemma_clean_edges(s: Seq<char>)
    requires
        trim_ws(s) == s,
        s.len() > 0,
    ensures
        !is_ws_char(s[0]),
        !is_ws_char(s.last()),
{
    lemma_trim_stable(s);
    if is_ws_char(s[0]) {
        lemma_trim_front_len(s.drop_first());
        assert(trim_front(s) == trim_front(s.drop_first()));
        assert(false);
    }
    if is_ws_char(s.last()) {
        lemma_trim_back_len(s.drop_last());
        assert(trim_back(s) == trim_back(s.drop_last()));
        assert(false);
    }
}

/// Leading whitespace does not change what a trim returns.
pub proof fn lemma_trim_ws_cons(c: char, s: Seq<char>)
    requires
        is_ws_char(c),
    ensures
        trim_ws(seq![c] + s) == trim_ws(s),
{
    assert((seq![c] + s)[0] == c);
    assert((seq![c] + s).drop_first() =~= s);
    assert(trim_front(seq![c] + s) == trim_front(s));
}

/// Whether `c` is one of the whitespace characters the parser strips.
pub fn is_ws_x(c: char) -> (b: bool)
    ensures
        b == is_ws_char(c),
{
    c == ' ' || c == '\t' || c == '\n' || c == '\r'
}

/// Narrows the range `lo..hi` of `t` by the whitespace on both ends.
pub fn trim_bounds(t: &Vec<char>, lo: usize, hi: usize) -> (r: (usize, usize))
    requires
        lo <= hi <= t@.len(),
    ensures
        lo <= r.0 <= r.1 <= hi,
        trim_ws(t@.subrange(lo as int, hi as int)) == t@.subrange(r.0 as int, r.1 as int),
{
    let ghost s = t@.subrange(lo as int, hi as int);
    let mut start: usize = lo;
    while start < hi && is_ws_x(t[start])
        invariant
            lo <= start <= hi <= t@.len(),
            s == t@.subrange(lo as int, hi as int),
            forall|j: int| 0 <= j < start - lo ==> is_ws_char(#[trigger] s[j]),
        decreases hi - start,
    {
        proof {
            assert(s[start - lo] == t@[start as int]);
        }
        start = start + 1;
    }
    let mut end: usize = hi;
    while end > start && is_ws_x(t[end - 1])
        invariant
            lo <= start <= end <= hi <= t@.len(),
            s == t@.subrange(lo as int, hi as int),
            forall|j: int| 0 <= j < start - lo ==> is_ws_char(#[trigger] s[j]),
            forall|j: int| end - lo <= j < s.len() ==> is_ws_char(#[trigger] s[j]),
        decreases end,
    {
        proof {
            assert(s[end - 1 - lo] == t@[end - 1]);
        }
        end = end - 1;
    }
    proof {
        if start < hi {
            assert(s[start - lo] == t@[start as int]);
        }
        lemma_trim_front_skip(s, start - lo);
        let sk = s.skip(start - lo);
        assert forall|j: int| (end - start) <= j < sk.len() implies is_ws_char(
            #[trigger] sk[j],
        ) by {
            assert(sk[j] == s[j + start - lo]);
        }
        if end > start {
            assert(sk[end - start - 1] == s[end - 1 - lo]);
            assert(s[end - 1 - lo] == t@[end - 1]);
        }
        lemma_trim_back_take(sk, end - start);
        assert(sk.take(end - start) =~= t@.subrange(start as int, end as int));
    }
    (start, end)
}

/// Copies the range `lo..hi` of `t` into a fresh vector.
pub fn copy_range(t: &Vec<char>, lo: usize, hi: usize) -> (r: Vec<char>)
    requires
        lo <= hi <= t@.len(),
    ensures
        r@ == t@.subrange(lo as int, hi as int),
{
    let mut r: Vec<char> = Vec::new();
    let mut i: usize = lo;
    while i < hi
        invariant
            lo <= i <= hi <= t@.len(),
            r@ == t@.subrange(lo as int, i as int),
        decreases hi - i,
    {
        r.push(t[i]);
        i = i + 1;
        proof {
            assert(r@ =~= t@.subrange(lo as int, i as int));
        }
    }
    r
}

/// Whether the range `lo..hi` of `t` reads exactly as `lit`.
pub fn range_eq_str(t: &Vec<char>, lo: usize, hi: usize, lit: &str) -> (b: bool)
    requires
        lo <= hi <= t@.len(),
    ensures
        b == (t@.subrange(lo as int, hi as int) == lit@),
{
    let n = lit.unicode_len();
    if n != hi - lo {
        proof {
            assert(t@.subrange(lo as int, hi as int).len() == hi - lo);
        }
        return false;
    }
    let mut i: usize = 0;
    while i < n
        invariant
            n == lit@.len(),
            lo <= hi <= t@.len(),
            hi - lo == n,
            i <= n,
            forall|j: int| 0 <= j < i ==> t@[lo + j] == #[trigger] lit@[j],
        decreases n - i,
    {
        if t[lo + i] != lit.get_char(i) {
            proof {
                assert(t@.subrange(lo as int, hi as int)[i as int] == t@[lo + i]);
            }
            return false;
        }
        i = i + 1;
    }
    proof {
        assert(t@.subrange(lo as int, hi as int) =~= lit@);
    }
    true
}

} // verus!
