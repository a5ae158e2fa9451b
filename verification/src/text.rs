//! Character-level helpers on `str` shared by the text-handling modules.
use crate::unicode::{char_is_whitespace, is_whitespace};
use vstd::prelude::*;

verus! {

broadcast use vstd::string::group_string_axioms;

/// The characters of `text`, in order.
pub fn chars_of(text: &str) -> (r: Vec<char>)
    ensures
        r@ == text@,
{
    let mut r: Vec<char> = Vec::new();
    for c in it: text.chars()
        invariant
            it.seq() == text@,
            r@ == it.seq().take(it.index() as int),
    {
        assert(it.seq().take(it.index() + 1) =~= r@.push(c));
        r.push(c);
    }
    assert(r@ =~= text@);
    r
}

/// Whether a character sequence holds only Unicode white space.
pub open spec fn blank(s: Seq<char>) -> bool {
    forall|k: int| 0 <= k < s.len() ==> is_whitespace(#[trigger] s[k])
}

/// Whether `chars[from..to]` holds only white space.
pub fn range_is_blank(chars: &Vec<char>, from: usize, to: usize) -> (r: bool)
    requires
        from <= to <= chars@.len(),
    ensures
        r == blank(chars@.subrange(from as int, to as int)),
{
    let mut k = from;
    while k < to
        invariant
            from <= k <= to <= chars@.len(),
            forall|j: int| from <= j < k ==> is_whitespace(#[trigger] chars@[j]),
        decreases to - k,
    {
        if !char_is_whitespace(chars[k]) {
            assert(chars@.subrange(from as int, to as int)[k - from] == chars@[k as int]);
            return false;
        }
        k = k + 1;
    }
    assert forall|j: int| 0 <= j < to - from implies is_whitespace(
        #[trigger] chars@.subrange(from as int, to as int)[j],
    ) by {
        assert(chars@.subrange(from as int, to as int)[j] == chars@[from + j]);
    }
    true
}

/// Whether `chars[from..to]` spells `word`.
pub fn range_equals(chars: &Vec<char>, from: usize, to: usize, word: &str) -> (r: bool)
    requires
        from <= to <= chars@.len(),
    ensures
        r == (chars@.subrange(from as int, to as int) == word@),
{
    let n = word.unicode_len();
    if n != to - from {
        return false;
    }
    let mut k: usize = 0;
    while k < n
        invariant
            n == word@.len(),
            n == to - from,
            from <= to <= chars@.len(),
            k <= n,
            forall|j: int| 0 <= j < k ==> chars@[from + j] == word@[j],
        decreases n - k,
    {
        if chars[from + k] != word.get_char(k) {
            assert(chars@.subrange(from as int, to as int)[k as int] != word@[k as int]);
            return false;
        }
        k = k + 1;
    }
    assert(chars@.subrange(from as int, to as int) =~= word@);
    true
}

/// The index of the last `c` in `s`, or -1.
pub open spec fn last_index(s: Seq<char>, c: char) -> int
    decreases s.len(),
{
    if s.len() == 0 {
        -1
    } else if s.last() == c {
        s.len() - 1
    } else {
        last_index(s.drop_last(), c)
    }
}

pub proof fn lemma_last_index_bounds(s: Seq<char>, c: char)
    ensures
        -1 <= last_index(s, c) < s.len(),
        last_index(s, c) >= 0 ==> s[last_index(s, c)] == c,
    decreases s.len(),
{
    if s.len() > 0 {
        lemma_last_index_bounds(s.drop_last(), c);
    }
}

/// The position of the last `c` in `chars[from..to]`, if any.
pub fn last_index_in(chars: &Vec<char>, from: usize, to: usize, c: char) -> (r: Option<usize>)
    requires
        from <= to <= chars@.len(),
    ensures
        match r {
            Some(j) => from <= j < to && j - from == last_index(chars@.subrange(from as int, to as int), c),
            None => last_index(chars@.subrange(from as int, to as int), c) == -1,
        },
        r matches Some(j) ==> chars@[j as int] == c,
{
    let mut k = to;
    while k > from
        invariant
            from <= k <= to <= chars@.len(),
            last_index(chars@.subrange(from as int, to as int), c) == last_index(
                chars@.subrange(from as int, k as int),
                c,
            ),
        decreases k - from,
    {
        let ghost sub = chars@.subrange(from as int, k as int);
        assert(sub.drop_last() =~= chars@.subrange(from as int, k - 1));
        assert(sub.last() == chars@[k - 1]);
        if chars[k - 1] == c {
            return Some(k - 1);
        }
        k = k - 1;
    }
    None
}

/// Whether two strings hold the same characters.
pub fn str_eq(a: &str, b: &str) -> (r: bool)
    ensures
        r == (a@ == b@),
{
    let c = chars_of(a);
    let n = c.len();
    assert(c@.subrange(0, n as int) =~= a@);
    range_equals(&c, 0, n, b)
}

/// The `.`-separated segments of a path, as `str::split('.')` yields them.
pub open spec fn dot_segments(p: Seq<char>) -> Seq<Seq<char>>
    decreases p.len(),
{
    let d = last_index(p, '.');
    if d < 0 {
        seq![p]
    } else {
        proof {
            lemma_last_index_bounds(p, '.');
        }
        dot_segments(p.take(d)).push(p.skip(d + 1))
    }
}

pub proof fn lemma_last_index_none(s: Seq<char>, c: char)
    requires
        forall|k: int| 0 <= k < s.len() ==> s[k] != c,
    ensures
        last_index(s, c) == -1,
    decreases s.len(),
{
    if s.len() > 0 {
        lemma_last_index_none(s.drop_last(), c);
    }
}

/// The `.`-separated segments of `chars`, as `(start, end)` ranges.
pub fn split_dots(chars: &Vec<char>) -> (r: Vec<(usize, usize)>)
    ensures
        r@.len() == dot_segments(chars@).len(),
        forall|k: int|
            0 <= k < r@.len() ==> (#[trigger] r@[k]).0 <= r@[k].1 <= chars@.len() && chars@.subrange(
                r@[k].0 as int,
                r@[k].1 as int,
            ) == dot_segments(chars@)[k],
{
    let mut r: Vec<(usize, usize)> = Vec::new();
    let mut start: usize = 0;
    let mut i: usize = 0;
    let n = chars.len();
    while i < n
        invariant
            n == chars@.len(),
            start <= i <= n,
            forall|j: int| start <= j < i ==> chars@[j] != '.',
            start == 0 ==> r@.len() == 0,
            start > 0 ==> r@.len() == dot_segments(chars@.take(start - 1)).len(),
            start > 0 ==> chars@[start - 1] == '.',
            forall|k: int|
                0 <= k < r@.len() ==> (#[trigger] r@[k]).0 <= r@[k].1 < start && chars@.subrange(
                    r@[k].0 as int,
                    r@[k].1 as int,
                ) == dot_segments(chars@.take(start - 1))[k],
        decreases n - i,
    {
        if chars[i] == '.' {
            proof {
                let p = chars@.take(i as int);
                assert forall|j: int| 0 <= j < i - start implies #[trigger] p.skip(start as int)[j] != '.' by {
                    assert(p.skip(start as int)[j] == chars@[start + j]);
                }
                lemma_last_index_none(p.skip(start as int), '.');
                lemma_split_at_last(p, start as int);
                if start > 0 {
                    assert(p.take(start - 1) =~= chars@.take(start - 1));
                }
            }
            let ghost before = r@;
            r.push((start, i));
            proof {
                let p = chars@.take(i as int);
                assert forall|k: int|
                    0 <= k < r@.len() implies (#[trigger] r@[k]).0 <= r@[k].1 < i + 1
                    && chars@.subrange(r@[k].0 as int, r@[k].1 as int) == dot_segments(
                    chars@.take(i as int),
                )[k] by {
                    if k < r@.len() - 1 {
                        assert(r@[k] == before[k]);
                    } else {
                        assert(chars@.subrange(start as int, i as int) =~= p.skip(start as int));
                    }
                }
                assert(chars@.take(i + 1 - 1) =~= p);
            }
            start = i + 1;
        }
        i = i + 1;
    }
    proof {
        let p = chars@;
        assert forall|j: int| 0 <= j < n - start implies #[trigger] p.skip(start as int)[j] != '.' by {
            assert(p.skip(start as int)[j] == chars@[start + j]);
        }
        lemma_last_index_none(p.skip(start as int), '.');
        lemma_split_at_last(p, start as int);
    }
    let ghost before = r@;
    r.push((start, n));
    proof {
        let p = chars@;
        assert forall|k: int|
            0 <= k < r@.len() implies (#[trigger] r@[k]).0 <= r@[k].1 <= chars@.len() && chars@.subrange(
            r@[k].0 as int,
            r@[k].1 as int,
        ) == dot_segments(chars@)[k] by {
            if k < r@.len() - 1 {
                assert(r@[k] == before[k]);
            } else {
                assert(chars@.subrange(start as int, n as int) =~= p.skip(start as int));
            }
        }
    }
    r
}

/// Splitting at the last dot: when `p[start..]` holds no dot and `start` is
/// zero or follows a dot, the segments are those before that dot plus the tail.
proof fn lemma_split_at_last(p: Seq<char>, start: int)
    requires
        0 <= start <= p.len(),
        last_index(p.skip(start), '.') == -1,
        start > 0 ==> p[start - 1] == '.',
    ensures
        start == 0 ==> dot_segments(p) == seq![p],
        start > 0 ==> dot_segments(p) == dot_segments(p.take(start - 1)).push(p.skip(start)),
    decreases p.len() - start,
{
    lemma_last_index_tail(p, start);
}

proof fn lemma_last_index_tail(p: Seq<char>, start: int)
    requires
        0 <= start <= p.len(),
        last_index(p.skip(start), '.') == -1,
    ensures
        start > 0 && p[start - 1] == '.' ==> last_index(p, '.') == start - 1,
        start == 0 ==> last_index(p, '.') == -1,
    decreases p.len() - start,
{
    if start < p.len() {
        let q = p.skip(start);
        assert(q.last() == p.last());
        assert(q.drop_last() =~= p.drop_last().skip(start));
        lemma_last_index_tail(p.drop_last(), start);
    } else {
        if start > 0 && p[start - 1] == '.' {
            assert(p.last() == p[start - 1]);
        } else if start == 0 {
            assert(p.len() == 0);
        }
    }
}

/// Whether `needle` occurs in `hay` as a contiguous run.
pub open spec fn occurs_in(hay: Seq<char>, needle: Seq<char>) -> bool {
    exists|i: int| 0 <= i <= hay.len() - needle.len() && #[trigger] hay.subrange(i, i + needle.len()) == needle
}

/// Whether `needle` occurs in `hay`, as `str::contains` decides it.
pub fn contains_chars(hay: &Vec<char>, needle: &Vec<char>) -> (r: bool)
    ensures
        r == occurs_in(hay@, needle@),
{
    let n = hay.len();
    let m = needle.len();
    if m > n {
        return false;
    }
    let mut i: usize = 0;
    while i <= n - m
        invariant
            n == hay@.len(),
            m == needle@.len(),
            m <= n,
            i <= n - m + 1,
            forall|j: int| 0 <= j < i ==> #[trigger] hay@.subrange(j, j + m) != needle@,
        decreases n - m + 1 - i,
    {
        let mut k: usize = 0;
        let mut same = true;
        while k < m
            invariant
                n == hay@.len(),
                m == needle@.len(),
                i + m <= n,
                k <= m,
                same == (forall|j: int| 0 <= j < k ==> hay@[i + j] == needle@[j]),
            decreases m - k,
        {
            if hay[i + k] != needle[k] {
                same = false;
            }
            k = k + 1;
        }
        if same {
            assert(hay@.subrange(i as int, i + m) =~= needle@);
            return true;
        }
        assert(hay@.subrange(i as int, i + m) != needle@) by {
            let j = choose|j: int| 0 <= j < m && hay@[i + j] != needle@[j];
            assert(hay@.subrange(i as int, i + m)[j] == hay@[i + j]);
        }
        i = i + 1;
    }
    false
}

/// The index of the first character of `s` that is not white space, or `s.len()`.
pub open spec fn first_content(s: Seq<char>) -> int
    decreases s.len(),
{
    if s.len() == 0 {
        0
    } else if !is_whitespace(s[0]) {
        0
    } else {
        1 + first_content(s.drop_first())
    }
}

/// One past the last character of `s` that is not white space, or 0.
pub open spec fn last_content(s: Seq<char>) -> int
    decreases s.len(),
{
    if s.len() == 0 {
        0
    } else if !is_whitespace(s.last()) {
        s.len() as int
    } else {
        last_content(s.drop_last())
    }
}

/// `s` without leading and trailing white space, as `str::trim` leaves it.
pub open spec fn trim_spec(s: Seq<char>) -> Seq<char> {
    let a = first_content(s);
    let b = last_content(s);
    if a >= b {
        Seq::empty()
    } else {
        s.subrange(a, b)
    }
}

proof fn lemma_first_content(s: Seq<char>)
    ensures
        0 <= first_content(s) <= s.len(),
        forall|k: int| 0 <= k < first_content(s) ==> is_whitespace(#[trigger] s[k]),
        first_content(s) < s.len() ==> !is_whitespace(s[first_content(s)]),
    decreases s.len(),
{
    if s.len() > 0 && is_whitespace(s[0]) {
        lemma_first_content(s.drop_first());
        assert forall|k: int| 0 <= k < first_content(s) implies is_whitespace(#[trigger] s[k]) by {
            if k > 0 {
                assert(s[k] == s.drop_first()[k - 1]);
            }
        }
    }
}

proof fn lemma_last_content(s: Seq<char>)
    ensures
        0 <= last_content(s) <= s.len(),
        forall|k: int| last_content(s) <= k < s.len() ==> is_whitespace(#[trigger] s[k]),
        last_content(s) > 0 ==> !is_whitespace(s[last_content(s) - 1]),
    decreases s.len(),
{
    if s.len() > 0 && is_whitespace(s.last()) {
        lemma_last_content(s.drop_last());
        assert forall|k: int| last_content(s) <= k < s.len() implies is_whitespace(#[trigger] s[k]) by {
            if k < s.len() - 1 {
                assert(s[k] == s.drop_last()[k]);
            }
        }
    }
}

/// The range of `chars` that `str::trim` keeps; empty ranges are `(a, a)`.
pub fn trim_range(chars: &Vec<char>) -> (r: (usize, usize))
    ensures
        r.0 <= r.1 <= chars@.len(),
        chars@.subrange(r.0 as int, r.1 as int) == trim_spec(chars@),
{
    let n = chars.len();
    let mut a: usize = 0;
    proof {
        lemma_first_content(chars@);
        lemma_last_content(chars@);
    }
    while a < n && char_is_whitespace(chars[a])
        invariant
            a <= n == chars@.len(),
            a <= first_content(chars@),
            forall|k: int| 0 <= k < first_content(chars@) ==> is_whitespace(#[trigger] chars@[k]),
            first_content(chars@) < chars@.len() ==> !is_whitespace(chars@[first_content(chars@)]),
        decreases n - a,
    {
        a = a + 1;
    }
    let mut b: usize = n;
    while b > a && char_is_whitespace(chars[b - 1])
        invariant
            a <= b <= n == chars@.len(),
            a == first_content(chars@),
            b >= last_content(chars@),
            forall|k: int| last_content(chars@) <= k < chars@.len() ==> is_whitespace(#[trigger] chars@[k]),
            last_content(chars@) > 0 ==> !is_whitespace(chars@[last_content(chars@) - 1]),
        decreases b - a,
    {
        b = b - 1;
    }
    if b == a {
        assert(chars@.subrange(a as int, b as int) =~= Seq::<char>::empty());
        assert(first_content(chars@) >= last_content(chars@)) by {
            if last_content(chars@) > a {
                assert(!is_whitespace(chars@[last_content(chars@) - 1]));
            }
        }
    }
    (a, b)
}

} // verus!
