//! Character classes and small string operations on the character sequences
//! that `String` and `str` are viewed as.
use vstd::prelude::*;

verus! {

/// The Unicode `White_Space` property, which `char::is_whitespace` tests.
pub open spec fn spec_is_whitespace(c: char) -> bool {
    ||| ('\u{9}' <= c && c <= '\u{d}')
    ||| c == ' '
    ||| c == '\u{85}'
    ||| c == '\u{a0}'
    ||| c == '\u{1680}'
    ||| ('\u{2000}' <= c && c <= '\u{200a}')
    ||| c == '\u{2028}'
    ||| c == '\u{2029}'
    ||| c == '\u{202f}'
    ||| c == '\u{205f}'
    ||| c == '\u{3000}'
}

/// The Unicode general category `Cc` (control codes), which `char::is_control` tests.
pub open spec fn spec_is_control(c: char) -> bool {
    c <= '\u{1f}' || ('\u{7f}' <= c && c <= '\u{9f}')
}

/// ASCII upper-case letters map to their lower-case forms; every other character is unchanged.
pub open spec fn spec_ascii_lower(c: char) -> char {
    if 'A' <= c && c <= 'Z' {
        ((c as u32) + 32) as char
    } else {
        c
    }
}

/// `str::to_ascii_lowercase` on the character view.
pub open spec fn spec_lower(s: Seq<char>) -> Seq<char> {
    s.map_values(|c: char| spec_ascii_lower(c))
}

/// `s` with its leading whitespace removed.
pub open spec fn spec_trim_start(s: Seq<char>) -> Seq<char>
    decreases s.len(),
{
    if s.len() > 0 && spec_is_whitespace(s[0]) {
        spec_trim_start(s.drop_first())
    } else {
        s
    }
}

/// `s` with its trailing whitespace removed.
pub open spec fn spec_trim_end(s: Seq<char>) -> Seq<char>
    decreases s.len(),
{
    if s.len() > 0 && spec_is_whitespace(s.last()) {
        spec_trim_end(s.drop_last())
    } else {
        s
    }
}

/// `str::trim`: leading and trailing whitespace removed.
pub open spec fn spec_trim(s: Seq<char>) -> Seq<char> {
    spec_trim_end(spec_trim_start(s))
}

/// `needle` occurs in `hay` as a contiguous piece.
pub open spec fn spec_contains(hay: Seq<char>, needle: Seq<char>) -> bool {
    exists|i: int|
        0 <= i && i + needle.len() <= hay.len() && #[trigger] hay.subrange(i, i + needle.len())
            == needle
}

/// `hay` ends with `needle`.
pub open spec fn spec_ends_with(hay: Seq<char>, needle: Seq<char>) -> bool {
    needle.len() <= hay.len() && hay.subrange(hay.len() - needle.len(), hay.len() as int) == needle
}

pub fn is_whitespace(c: char) -> (r: bool)
    ensures
        r == spec_is_whitespace(c),
{
    ('\u{9}' <= c && c <= '\u{d}') || c == ' ' || c == '\u{85}' || c == '\u{a0}' || c
        == '\u{1680}' || ('\u{2000}' <= c && c <= '\u{200a}') || c == '\u{2028}' || c
        == '\u{2029}' || c == '\u{202f}' || c == '\u{205f}' || c == '\u{3000}'
}

pub fn is_control(c: char) -> (r: bool)
    ensures
        r == spec_is_control(c),
{
    c <= '\u{1f}' || ('\u{7f}' <= c && c <= '\u{9f}')
}

pub fn ascii_lower(c: char) -> (r: char)
    ensures
        r == spec_ascii_lower(c),
{
    if 'A' <= c && c <= 'Z' {
        let b: u8 = c as u8;
        (b + 32) as char
    } else {
        c
    }
}

/// `String::push`: the string afterwards is the string before with `c` appended.
#[verifier::external_body]
pub(crate) fn push_char(s: &mut String, c: char)
    ensures
        final(s)@ == old(s)@.push(c),
{
    s.push(c);
}

/// The characters of `s`, in order.
pub fn to_chars(s: &str) -> (v: Vec<char>)
    ensures
        v@ == s@,
{
    let mut v: Vec<char> = Vec::new();
    for c in it: s.chars()
        invariant
            v@ == it.seq().take(it.index() as int),
            it.seq() == s@,
    {
        v.push(c);
    }
    v
}

/// The string made of `v[from..to]`.
pub fn string_of(v: &[char], from: usize, to: usize) -> (s: String)
    requires
        from <= to <= v@.len(),
    ensures
        s@ == v@.subrange(from as int, to as int),
{
    let mut s: String = String::new();
    let mut i: usize = from;
    while i < to
        invariant
            from <= i <= to <= v@.len(),
            s@ == v@.subrange(from as int, i as int),
        decreases to - i,
    {
        push_char(&mut s, v[i]);
        assert(v@.subrange(from as int, i + 1) == v@.subrange(from as int, i as int).push(v@[i as int]));
        i = i + 1;
    }
    s
}

/// `str::to_ascii_lowercase`.
pub fn to_ascii_lowercase(s: &str) -> (r: String)
    ensures
        r@ == spec_lower(s@),
{
    let v: Vec<char> = to_chars(s);
    let mut r: String = String::new();
    let mut i: usize = 0;
    while i < v.len()
        invariant
            i <= v@.len(),
            v@ == s@,
            r@ == spec_lower(v@.subrange(0, i as int)),
        decreases v.len() - i,
    {
        let c: char = ascii_lower(v[i]);
        push_char(&mut r, c);
        assert(spec_lower(v@.subrange(0, i + 1)) == spec_lower(v@.subrange(0, i as int)).push(c));
        i = i + 1;
    }
    assert(v@.subrange(0, v@.len() as int) == v@);
    r
}

proof fn lemma_trim_start_skip(s: Seq<char>, i: int)
    requires
        0 <= i <= s.len(),
        forall|k: int| 0 <= k < i ==> spec_is_whitespace(#[trigger] s[k]),
    ensures
        spec_trim_start(s) == spec_trim_start(s.subrange(i, s.len() as int)),
    decreases i,
{
    if i > 0 {
        lemma_trim_start_skip(s, i - 1);
        let t: Seq<char> = s.subrange(i - 1, s.len() as int);
        assert(t[0] == s[i - 1]);
        assert(t.drop_first() == s.subrange(i, s.len() as int));
    } else {
        assert(s.subrange(0, s.len() as int) == s);
    }
}

proof fn lemma_trim_end_skip(s: Seq<char>, j: int)
    requires
        0 <= j <= s.len(),
        forall|k: int| j <= k < s.len() ==> spec_is_whitespace(#[trigger] s[k]),
    ensures
        spec_trim_end(s) == spec_trim_end(s.subrange(0, j)),
    decreases s.len() - j,
{
    if j < s.len() {
        lemma_trim_end_skip(s, j + 1);
        let t: Seq<char> = s.subrange(0, j + 1);
        assert(t.last() == s[j]);
        assert(t.drop_last() == s.subrange(0, j));
    } else {
        assert(s.subrange(0, s.len() as int) == s);
    }
}

/// What `spec_trim_start` keeps is a suffix of `s` that starts with a non-whitespace character.
pub proof fn lemma_trim_start_shape(s: Seq<char>) -> (k: int)
    ensures
        0 <= k <= s.len(),
        spec_trim_start(s) == s.subrange(k, s.len() as int),
        k < s.len() ==> !spec_is_whitespace(s[k]),
    decreases s.len(),
{
    if s.len() > 0 && spec_is_whitespace(s[0]) {
        let k1: int = lemma_trim_start_shape(s.drop_first());
        assert(s.drop_first().subrange(k1, s.drop_first().len() as int) == s.subrange(
            k1 + 1,
            s.len() as int,
        ));
        assert(k1 < s.drop_first().len() ==> s.drop_first()[k1] == s[k1 + 1]);
        k1 + 1
    } else {
        assert(s.subrange(0, s.len() as int) == s);
        0
    }
}

/// What `spec_trim_end` keeps is a prefix of `s` that ends with a non-whitespace character.
pub proof fn lemma_trim_end_shape(s: Seq<char>) -> (k: int)
    ensures
        0 <= k <= s.len(),
        spec_trim_end(s) == s.subrange(0, k),
        k > 0 ==> !spec_is_whitespace(s[k - 1]),
    decreases s.len(),
{
    if s.len() > 0 && spec_is_whitespace(s.last()) {
        let k1: int = lemma_trim_end_shape(s.drop_last());
        assert(s.drop_last().subrange(0, k1) == s.subrange(0, k1));
        k1
    } else {
        assert(s.subrange(0, s.len() as int) == s);
        s.len() as int
    }
}

/// What `spec_trim` keeps is a piece of `s` that neither starts nor ends with whitespace.
pub proof fn lemma_trim_shape(s: Seq<char>) -> (r: (int, int))
    ensures
        0 <= r.0 <= r.1 <= s.len(),
        spec_trim(s) == s.subrange(r.0, r.1),
        r.0 < r.1 ==> !spec_is_whitespace(s[r.0]) && !spec_is_whitespace(s[r.1 - 1]),
{
    let a: int = lemma_trim_start_shape(s);
    let t: Seq<char> = s.subrange(a, s.len() as int);
    let b: int = lemma_trim_end_shape(t);
    assert(t.subrange(0, b) == s.subrange(a, a + b));
    if b > 0 {
        assert(t[0] == s[a]);
        assert(t[b - 1] == s[a + b - 1]);
    }
    (a, a + b)
}

/// A sequence that neither starts nor ends with whitespace is its own trim.
pub proof fn lemma_trim_unchanged(s: Seq<char>)
    requires
        s.len() > 0 ==> !spec_is_whitespace(s[0]) && !spec_is_whitespace(s.last()),
    ensures
        spec_trim(s) == s,
{
    assert(spec_trim_start(s) == s);
    assert(spec_trim_end(s) == s);
}

/// Law: trimming twice is trimming once.
pub proof fn lemma_trim_idempotent(s: Seq<char>)
    ensures
        spec_trim(spec_trim(s)) == spec_trim(s),
{
    let (a, b) = lemma_trim_shape(s);
    let t: Seq<char> = spec_trim(s);
    if t.len() > 0 {
        assert(t[0] == s[a]);
        assert(t.last() == s[b - 1]);
    }
    lemma_trim_unchanged(t);
}

proof fn lemma_trim_start_empty(x: Seq<char>)
    ensures
        spec_trim_start(x).len() == 0 <==> forall|i: int| 0 <= i < x.len() ==> spec_is_whitespace(
            #[trigger] x[i],
        ),
    decreases x.len(),
{
    if x.len() > 0 {
        lemma_trim_start_empty(x.drop_first());
        assert forall|i: int| 1 <= i < x.len() implies #[trigger] x[i] == x.drop_first()[i - 1] by {}
        if forall|i: int| 0 <= i < x.len() ==> spec_is_whitespace(#[trigger] x[i]) {
            assert forall|i: int| 0 <= i < x.drop_first().len() implies spec_is_whitespace(
                #[trigger] x.drop_first()[i],
            ) by {
                assert(x.drop_first()[i] == x[i + 1]);
            }
        }
        if spec_is_whitespace(x[0]) && forall|i: int|
            0 <= i < x.drop_first().len() ==> spec_is_whitespace(#[trigger] x.drop_first()[i]) {
            assert forall|i: int| 0 <= i < x.len() implies spec_is_whitespace(#[trigger] x[i]) by {
                if i > 0 {
                    assert(x[i] == x.drop_first()[i - 1]);
                }
            }
        }
    }
}

proof fn lemma_trim_end_empty(x: Seq<char>)
    ensures
        spec_trim_end(x).len() == 0 <==> forall|i: int| 0 <= i < x.len() ==> spec_is_whitespace(
            #[trigger] x[i],
        ),
    decreases x.len(),
{
    if x.len() > 0 {
        let p: Seq<char> = x.drop_last();
        lemma_trim_end_empty(p);
        if forall|i: int| 0 <= i < x.len() ==> spec_is_whitespace(#[trigger] x[i]) {
            assert forall|i: int| 0 <= i < p.len() implies spec_is_whitespace(#[trigger] p[i]) by {
                assert(p[i] == x[i]);
            }
            assert(spec_is_whitespace(x[x.len() - 1]));
        }
        if spec_is_whitespace(x.last()) && forall|i: int|
            0 <= i < p.len() ==> spec_is_whitespace(#[trigger] p[i]) {
            assert forall|i: int| 0 <= i < x.len() implies spec_is_whitespace(#[trigger] x[i]) by {
                if i < p.len() {
                    assert(x[i] == p[i]);
                }
            }
        }
    }
}

/// Law: the trim of `x` is empty exactly where every character of `x` is whitespace.
pub proof fn lemma_trim_empty(x: Seq<char>)
    ensures
        spec_trim(x).len() == 0 <==> forall|i: int| 0 <= i < x.len() ==> spec_is_whitespace(
            #[trigger] x[i],
        ),
{
    lemma_trim_start_empty(x);
    let t: Seq<char> = spec_trim_start(x);
    lemma_trim_end_empty(t);
    let k: int = lemma_trim_start_shape(x);
    if t.len() > 0 {
        assert(t[0] == x[k]);
        assert(!spec_is_whitespace(t[0]));
    }
}

/// `str::trim` on the characters `v[..]`.
pub fn trim_chars(v: &[char]) -> (r: String)
    ensures
        r@ == spec_trim(v@),
{
    let n: usize = v.len();
    let mut i: usize = 0;
    while i < n && is_whitespace(v[i])
        invariant
            i <= n == v@.len(),
            forall|k: int| 0 <= k < i ==> spec_is_whitespace(#[trigger] v@[k]),
        decreases n - i,
    {
        i = i + 1;
    }
    proof {
        lemma_trim_start_skip(v@, i as int);
    }
    let ghost rest: Seq<char> = v@.subrange(i as int, n as int);
    assert(i < n ==> rest[0] == v@[i as int]);
    assert(spec_trim_start(rest) == rest);
    let mut j: usize = n;
    while j > i && is_whitespace(v[j - 1])
        invariant
            i <= j <= n == v@.len(),
            rest == v@.subrange(i as int, n as int),
            forall|k: int| j <= k < n ==> spec_is_whitespace(#[trigger] v@[k]),
        decreases j,
    {
        j = j - 1;
    }
    proof {
        assert forall|k: int| j - i <= k < rest.len() implies spec_is_whitespace(
            #[trigger] rest[k],
        ) by {
            assert(rest[k] == v@[k + i]);
        }
        lemma_trim_end_skip(rest, j - i);
        let kept: Seq<char> = rest.subrange(0, j - i);
        assert(kept == v@.subrange(i as int, j as int));
        if j > i {
            assert(kept.last() == v@[j - 1]);
        }
        assert(spec_trim_end(kept) == kept);
    }
    string_of(v, i, j)
}

/// `str::trim`.
pub fn trim(s: &str) -> (r: String)
    ensures
        r@ == spec_trim(s@),
{
    let v: Vec<char> = to_chars(s);
    trim_chars(v.as_slice())
}

/// Whether `hay[at..]` begins with `needle`.
fn matches_at(hay: &[char], needle: &[char], at: usize) -> (r: bool)
    requires
        at + needle@.len() <= hay@.len(),
    ensures
        r == (hay@.subrange(at as int, at + needle@.len()) == needle@),
{
    let hay_len: usize = hay.len();
    let mut k: usize = 0;
    while k < needle.len()
        invariant
            k <= needle@.len(),
            hay_len == hay@.len(),
            at + needle@.len() <= hay@.len(),
            forall|m: int| 0 <= m < k ==> hay@[at + m] == needle@[m],
        decreases needle.len() - k,
    {
        if hay[at + k] != needle[k] {
            assert(hay@.subrange(at as int, at + needle@.len())[k as int] != needle@[k as int]);
            return false;
        }
        k = k + 1;
    }
    assert(hay@.subrange(at as int, at + needle@.len()) =~= needle@);
    true
}

/// `str::contains` with a string pattern.
pub fn contains_chars(hay: &[char], needle: &[char]) -> (r: bool)
    ensures
        r == spec_contains(hay@, needle@),
{
    if needle.len() > hay.len() {
        return false;
    }
    if needle.len() == 0 {
        assert(hay@.subrange(0, 0int + needle@.len()) =~= needle@);
        return true;
    }
    let hay_len: usize = hay.len();
    let last: usize = hay_len - needle.len();
    let mut i: usize = 0;
    while i <= last
        invariant
            hay_len == hay@.len(),
            last + needle@.len() == hay@.len(),
            needle@.len() > 0,
            forall|k: int|
                0 <= k < i ==> #[trigger] hay@.subrange(k, k + needle@.len()) != needle@,
        decreases last + 1 - i,
    {
        if matches_at(hay, needle, i) {
            return true;
        }
        i = i + 1;
    }
    false
}

/// `str::ends_with` with a string pattern.
pub fn ends_with_chars(hay: &[char], needle: &[char]) -> (r: bool)
    ensures
        r == spec_ends_with(hay@, needle@),
{
    if needle.len() > hay.len() {
        return false;
    }
    matches_at(hay, needle, hay.len() - needle.len())
}

} // verus!
