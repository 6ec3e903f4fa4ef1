//! Text seen as a sequence of characters: path segments, prefixes, comparison.

use std::borrow::Cow;

use vstd::prelude::*;
use vstd::std_specs::iter::*;

verus! {

/// The path without one leading slash.
pub open spec fn without_start_slash(path: Seq<char>) -> Seq<char> {
    if path.len() > 0 && path[0] == '/' {
        path.skip(1)
    } else {
        path
    }
}

/// The path without one trailing slash.
pub open spec fn without_end_slash(path: Seq<char>) -> Seq<char> {
    if path.len() > 0 && path.last() == '/' {
        path.drop_last()
    } else {
        path
    }
}

/// Number of characters in front of the first slash, or of the end.
pub open spec fn segment_len(path: Seq<char>) -> nat
    decreases path.len(),
{
    if path.len() == 0 || path[0] == '/' {
        0
    } else {
        1 + segment_len(path.skip(1))
    }
}

/// Number of leading characters that two texts share.
pub open spec fn common_len(a: Seq<char>, b: Seq<char>) -> nat
    decreases a.len(),
{
    if a.len() == 0 || b.len() == 0 || a[0] != b[0] {
        0
    } else {
        1 + common_len(a.skip(1), b.skip(1))
    }
}

/// The texts behind a list of strings.
pub open spec fn texts(list: Seq<String>) -> Seq<Seq<char>> {
    list.map_values(|s: String| s@)
}

/// The segment in front of the first slash holds no slash, and is followed by one or by nothing.
pub proof fn lemma_segment(path: Seq<char>)
    ensures
        segment_len(path) <= path.len(),
        forall|i: int| 0 <= i < segment_len(path) ==> path[i] != '/',
        segment_len(path) < path.len() ==> path[segment_len(path) as int] == '/',
    decreases path.len(),
{
    if path.len() > 0 && path[0] != '/' {
        let rest = path.skip(1);
        lemma_segment(rest);
        assert forall|i: int| 0 <= i < segment_len(path) implies path[i] != '/' by {
            if i > 0 {
                assert(rest[i - 1] == path[i]);
            }
        }
        if segment_len(path) < path.len() {
            assert(rest[segment_len(rest) as int] == path[segment_len(path) as int]);
        }
    }
}

/// A slash-free stretch that ends in a slash or at the end is the first segment.
pub proof fn lemma_segment_is(path: Seq<char>, n: nat)
    requires
        n <= path.len(),
        forall|i: int| 0 <= i < n ==> path[i] != '/',
        n < path.len() ==> path[n as int] == '/',
    ensures
        segment_len(path) == n,
{
    lemma_segment(path);
    let k = segment_len(path);
    if k < n {
        assert(path[k as int] != '/');
    } else if n < k {
        assert(path[n as int] != '/');
    }
}

/// What `common_len` counts: equal characters up to it, and a difference or an end there.
pub proof fn lemma_common(a: Seq<char>, b: Seq<char>)
    ensures
        common_len(a, b) <= a.len(),
        common_len(a, b) <= b.len(),
        a.take(common_len(a, b) as int) == b.take(common_len(a, b) as int),
        common_len(a, b) < a.len() && common_len(a, b) < b.len() ==> a[common_len(a, b) as int]
            != b[common_len(a, b) as int],
        forall|i: int| 0 <= i < common_len(a, b) ==> a[i] == b[i],
    decreases a.len(),
{
    let k = common_len(a, b);
    if a.len() == 0 || b.len() == 0 || a[0] != b[0] {
    } else {
        lemma_common(a.skip(1), b.skip(1));
        assert forall|i: int| 0 <= i < k implies a[i] == b[i] by {
            if i > 0 {
                assert(a.skip(1)[i - 1] == b.skip(1)[i - 1]);
            }
        }
        if k < a.len() && k < b.len() {
            assert(a.skip(1)[k - 1] != b.skip(1)[k - 1]);
        }
    }
    assert(a.take(k as int) =~= b.take(k as int));
}

/// Equal characters up to a difference or an end determine `common_len`.
pub proof fn lemma_common_is(a: Seq<char>, b: Seq<char>, n: nat)
    requires
        n <= a.len(),
        n <= b.len(),
        forall|i: int| 0 <= i < n ==> a[i] == b[i],
        n < a.len() && n < b.len() ==> a[n as int] != b[n as int],
    ensures
        common_len(a, b) == n,
{
    lemma_common(a, b);
    let k = common_len(a, b);
    if k < n {
        assert(a[k as int] == b[k as int]);
    } else if n < k {
        assert(a[n as int] == b[n as int]);
    }
}

/// The text of a borrowed or owned string.
pub fn cow_text<'b, 'a>(s: &'b Cow<'a, str>) -> (r: &'b str)
    ensures
        r@ == s@,
{
    match s {
        Cow::Borrowed(t) => t,
        Cow::Owned(t) => t.as_str(),
    }
}

/// Compares two texts.
pub fn same_text(a: &str, b: &str) -> (r: bool)
    ensures
        r == (a@ == b@),
{
    let n: usize = a.unicode_len();
    if n != b.unicode_len() {
        return false;
    }
    let mut left = a.chars();
    let mut right = b.chars();
    let mut i: usize = 0;
    assert(a@.skip(0) =~= a@);
    assert(b@.skip(0) =~= b@);
    while i < n
        invariant
            i <= n,
            n == a@.len(),
            n == b@.len(),
            IteratorSpec::remaining(&left) == a@.skip(i as int),
            IteratorSpec::remaining(&right) == b@.skip(i as int),
            forall|j: int| 0 <= j < i ==> a@[j] == b@[j],
        decreases n - i,
    {
        let x = left.next();
        let y = right.next();
        assert(x == Some(a@[i as int]));
        assert(y == Some(b@[i as int]));
        match (x, y) {
            (Some(c), Some(d)) => {
                if c != d {
                    return false;
                }
            },
            _ => {
                return false;
            },
        }
        assert(a@.skip(i as int).drop_first() =~= a@.skip(i + 1));
        assert(b@.skip(i as int).drop_first() =~= b@.skip(i + 1));
        i += 1;
    }
    assert(a@ =~= b@);
    true
}

/// The text after its first `n` characters.
pub fn skip_chars(s: &str, n: usize) -> (r: &str)
    requires
        n <= s@.len(),
    ensures
        r@ == s@.skip(n as int),
{
    let len: usize = s.unicode_len();
    let r = s.substring_char(n, len);
    assert(r@ =~= s@.skip(n as int));
    r
}

/// The first `n` characters of the text.
pub fn take_chars(s: &str, n: usize) -> (r: &str)
    requires
        n <= s@.len(),
    ensures
        r@ == s@.take(n as int),
{
    let r = s.substring_char(0, n);
    assert(r@ =~= s@.take(n as int));
    r
}

/// Counts the characters in front of the first slash.
pub fn count_segment(path: &str) -> (r: usize)
    ensures
        r == segment_len(path@),
{
    let n: usize = path.unicode_len();
    let mut chars = path.chars();
    let mut i: usize = 0;
    assert(path@.skip(0) =~= path@);
    while i < n
        invariant
            i <= n,
            n == path@.len(),
            IteratorSpec::remaining(&chars) == path@.skip(i as int),
            forall|j: int| 0 <= j < i ==> path@[j] != '/',
        decreases n - i,
    {
        let x = chars.next();
        assert(x == Some(path@[i as int]));
        match x {
            Some(c) => {
                if c == '/' {
                    proof {
                        lemma_segment_is(path@, i as nat);
                    }
                    return i;
                }
            },
            None => {
                return i;
            },
        }
        assert(path@.skip(i as int).drop_first() =~= path@.skip(i + 1));
        i += 1;
    }
    proof {
        lemma_segment_is(path@, i as nat);
    }
    i
}

/// Counts the leading characters that two texts share.
pub fn count_common(a: &str, b: &str) -> (r: usize)
    ensures
        r == common_len(a@, b@),
{
    let n: usize = a.unicode_len();
    let m: usize = b.unicode_len();
    let mut left = a.chars();
    let mut right = b.chars();
    let mut i: usize = 0;
    assert(a@.skip(0) =~= a@);
    assert(b@.skip(0) =~= b@);
    while i < n && i < m
        invariant
            i <= n,
            i <= m,
            n == a@.len(),
            m == b@.len(),
            IteratorSpec::remaining(&left) == a@.skip(i as int),
            IteratorSpec::remaining(&right) == b@.skip(i as int),
            forall|j: int| 0 <= j < i ==> a@[j] == b@[j],
        decreases n - i,
    {
        let x = left.next();
        let y = right.next();
        assert(x == Some(a@[i as int]));
        assert(y == Some(b@[i as int]));
        if x != y {
            proof {
                lemma_common_is(a@, b@, i as nat);
            }
            return i;
        }
        assert(a@.skip(i as int).drop_first() =~= a@.skip(i + 1));
        assert(b@.skip(i as int).drop_first() =~= b@.skip(i + 1));
        i += 1;
    }
    proof {
        lemma_common_is(a@, b@, i as nat);
    }
    i
}

/// Drops one leading slash.
pub fn strip_start_slash(path: &str) -> (r: &str)
    ensures
        r@ == without_start_slash(path@),
{
    if !path.is_empty() && path.get_char(0) == '/' {
        skip_chars(path, 1)
    } else {
        path
    }
}

/// Drops one trailing slash.
pub fn strip_end_slash(path: &str) -> (r: &str)
    ensures
        r@ == without_end_slash(path@),
{
    let n: usize = path.unicode_len();
    if n > 0 && path.get_char(n - 1) == '/' {
        let r = take_chars(path, n - 1);
        assert(r@ =~= path@.drop_last());
        r
    } else {
        path
    }
}

/// Joins two texts.
pub fn join(a: &str, b: &str) -> (r: String)
    ensures
        r@ == a@ + b@,
{
    let mut out: String = a.to_owned();
    out.append(b);
    out
}

/// Copies a list of strings.
pub fn copy_list(list: &Vec<String>) -> (r: Vec<String>)
    ensures
        texts(r@) == texts(list@),
{
    let mut out: Vec<String> = Vec::new();
    let mut i: usize = 0;
    while i < list.len()
        invariant
            i <= list@.len(),
            out@.len() == i,
            forall|j: int| 0 <= j < i ==> (#[trigger] out@[j])@ == list@[j]@,
        decreases list@.len() - i,
    {
        out.push(list[i].clone());
        i += 1;
    }
    assert(texts(out@) =~= texts(list@));
    out
}

/// Compares two lists of strings.
pub fn same_list(a: &Vec<String>, b: &Vec<String>) -> (r: bool)
    ensures
        r == (texts(a@) == texts(b@)),
{
    if a.len() != b.len() {
        assert(texts(a@).len() != texts(b@).len());
        return false;
    }
    let mut i: usize = 0;
    while i < a.len()
        invariant
            a@.len() == b@.len(),
            i <= a@.len(),
            forall|j: int| 0 <= j < i ==> (#[trigger] a@[j])@ == b@[j]@,
        decreases a@.len() - i,
    {
        if !same_text(a[i].as_str(), b[i].as_str()) {
            assert(texts(a@)[i as int] != texts(b@)[i as int]);
            return false;
        }
        i += 1;
    }
    assert(texts(a@) =~= texts(b@));
    true
}

} // verus!
