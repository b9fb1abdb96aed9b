//! Character-level text helpers: the whitespace class, trimming, and the
//! conversions between `str`/`String` and character vectors.
use vstd::prelude::*;
use vstd::string::StringExecFns;

verus! {

/// Unicode `White_Space`, the class that `char::is_whitespace` and `str::trim` use.
pub open spec fn is_space(c: char) -> bool {
    let u = c as u32;
    (0x9 <= u && u <= 0xD) || u == 0x20 || u == 0x85 || u == 0xA0 || u == 0x1680 || (0x2000 <= u
        && u <= 0x200A) || u == 0x2028 || u == 0x2029 || u == 0x202F || u == 0x205F || u == 0x3000
}

/// `s` with every leading character that satisfies `p` removed.
pub open spec fn strip_leading(s: Seq<char>, p: spec_fn(char) -> bool) -> Seq<char>
    decreases s.len(),
{
    if s.len() > 0 && p(s[0]) {
        strip_leading(s.drop_first(), p)
    } else {
        s
    }
}

/// `s` with every trailing character that satisfies `p` removed.
pub open spec fn strip_trailing(s: Seq<char>, p: spec_fn(char) -> bool) -> Seq<char>
    decreases s.len(),
{
    if s.len() > 0 && p(s.last()) {
        strip_trailing(s.drop_last(), p)
    } else {
        s
    }
}

/// The whitespace class, as a predicate.
pub open spec fn space_pred() -> spec_fn(char) -> bool {
    |c: char| is_space(c)
}

/// The colon, as a predicate.
pub open spec fn colon_pred() -> spec_fn(char) -> bool {
    |c: char| c == ':'
}

/// What `str::trim_start` returns.
pub open spec fn trim_start(s: Seq<char>) -> Seq<char> {
    strip_leading(s, space_pred())
}

/// What `str::trim` returns.
pub open spec fn trim(s: Seq<char>) -> Seq<char> {
    strip_trailing(strip_leading(s, space_pred()), space_pred())
}

/// Whether `s` begins with `prefix`.
pub open spec fn starts_with(s: Seq<char>, prefix: Seq<char>) -> bool {
    prefix.len() <= s.len() && s.take(prefix.len() as int) == prefix
}

/// Index of the first `c` in `s`, or `s.len()` when there is none.
pub open spec fn index_of(s: Seq<char>, c: char) -> int
    decreases s.len(),
{
    if s.len() == 0 {
        0
    } else if s[0] == c {
        0
    } else {
        1 + index_of(s.drop_first(), c)
    }
}

pub proof fn lemma_index_of(s: Seq<char>, c: char)
    ensures
        0 <= index_of(s, c) <= s.len(),
        forall|j: int| 0 <= j < index_of(s, c) ==> s[j] != c,
        index_of(s, c) < s.len() ==> s[index_of(s, c)] == c,
    decreases s.len(),
{
    if s.len() > 0 && s[0] != c {
        lemma_index_of(s.drop_first(), c);
        assert forall|j: int| 0 <= j < index_of(s, c) implies s[j] != c by {
            if j > 0 {
                assert(s[j] == s.drop_first()[j - 1]);
            }
        }
    }
}

/// `index_of` is pinned down by the position it reports.
pub proof fn lemma_index_of_at(s: Seq<char>, c: char, i: int)
    requires
        0 <= i <= s.len(),
        forall|j: int| 0 <= j < i ==> s[j] != c,
        i < s.len() ==> s[i] == c,
    ensures
        index_of(s, c) == i,
    decreases i,
{
    if i > 0 {
        assert forall|j: int| 0 <= j < i - 1 implies s.drop_first()[j] != c by {
            assert(s.drop_first()[j] == s[j + 1]);
        }
        if i - 1 < s.drop_first().len() {
            assert(s.drop_first()[i - 1] == s[i]);
        }
        lemma_index_of_at(s.drop_first(), c, i - 1);
    }
}

pub proof fn lemma_strip_leading_at(s: Seq<char>, p: spec_fn(char) -> bool, i: int)
    requires
        0 <= i <= s.len(),
        forall|j: int| 0 <= j < i ==> p(s[j]),
        i == s.len() || !p(s[i]),
    ensures
        strip_leading(s, p) == s.skip(i),
    decreases i,
{
    if i == 0 {
        assert(s.skip(0) =~= s);
    } else {
        assert forall|j: int| 0 <= j < i - 1 implies p(s.drop_first()[j]) by {
            assert(s.drop_first()[j] == s[j + 1]);
        }
        if i - 1 < s.drop_first().len() {
            assert(s.drop_first()[i - 1] == s[i]);
        }
        lemma_strip_leading_at(s.drop_first(), p, i - 1);
        assert(s.drop_first().skip(i - 1) =~= s.skip(i));
    }
}

pub proof fn lemma_strip_trailing_at(s: Seq<char>, p: spec_fn(char) -> bool, k: int)
    requires
        0 <= k <= s.len(),
        forall|j: int| k <= j < s.len() ==> p(s[j]),
        k == 0 || !p(s[k - 1]),
    ensures
        strip_trailing(s, p) == s.take(k),
    decreases s.len() - k,
{
    if k == s.len() {
        assert(s.take(k) =~= s);
    } else {
        assert forall|j: int| k <= j < s.drop_last().len() implies p(s.drop_last()[j]) by {}
        lemma_strip_trailing_at(s.drop_last(), p, k);
        assert(s.drop_last().take(k) =~= s.take(k));
    }
}

/// `char::is_whitespace`, over the `White_Space` class.
pub fn is_whitespace(c: char) -> (b: bool)
    ensures
        b == is_space(c),
{
    let u = c as u32;
    (0x9 <= u && u <= 0xD) || u == 0x20 || u == 0x85 || u == 0xA0 || u == 0x1680 || (0x2000 <= u
        && u <= 0x200A) || u == 0x2028 || u == 0x2029 || u == 0x202F || u == 0x205F || u == 0x3000
}

/// First index in `lo..hi` of `v` whose character is not whitespace, or `hi`.
pub fn skip_space(v: &Vec<char>, lo: usize, hi: usize) -> (i: usize)
    requires
        lo <= hi <= v@.len(),
    ensures
        lo <= i <= hi,
        strip_leading(v@.subrange(lo as int, hi as int), space_pred()) == v@.subrange(
            i as int,
            hi as int,
        ),
{
    let mut i = lo;
    while i < hi && is_whitespace(v[i])
        invariant
            lo <= i <= hi <= v@.len(),
            forall|j: int| lo <= j < i ==> is_space(v@[j]),
        decreases hi - i,
    {
        i = i + 1;
    }
    proof {
        let s = v@.subrange(lo as int, hi as int);
        lemma_strip_leading_at(s, space_pred(), i - lo);
        assert(s.skip(i - lo) =~= v@.subrange(i as int, hi as int));
    }
    i
}

/// One past the last index in `lo..hi` of `v` whose character is not whitespace, or `lo`.
pub fn skip_space_back(v: &Vec<char>, lo: usize, hi: usize) -> (k: usize)
    requires
        lo <= hi <= v@.len(),
    ensures
        lo <= k <= hi,
        strip_trailing(v@.subrange(lo as int, hi as int), space_pred()) == v@.subrange(
            lo as int,
            k as int,
        ),
{
    let mut k = hi;
    while k > lo && is_whitespace(v[k - 1])
        invariant
            lo <= k <= hi <= v@.len(),
            forall|j: int| k <= j < hi ==> is_space(v@[j]),
        decreases k - lo,
    {
        k = k - 1;
    }
    proof {
        let s = v@.subrange(lo as int, hi as int);
        lemma_strip_trailing_at(s, space_pred(), k - lo);
        assert(s.take(k - lo) =~= v@.subrange(lo as int, k as int));
    }
    k
}

/// First index in `lo..hi` of `v` that is not a colon, or `hi`.
pub fn skip_colons(v: &Vec<char>, lo: usize, hi: usize) -> (i: usize)
    requires
        lo <= hi <= v@.len(),
    ensures
        lo <= i <= hi,
        strip_leading(v@.subrange(lo as int, hi as int), colon_pred()) == v@.subrange(
            i as int,
            hi as int,
        ),
{
    let mut i = lo;
    while i < hi && v[i] == ':'
        invariant
            lo <= i <= hi <= v@.len(),
            forall|j: int| lo <= j < i ==> v@[j] == ':',
        decreases hi - i,
    {
        i = i + 1;
    }
    proof {
        let s = v@.subrange(lo as int, hi as int);
        lemma_strip_leading_at(s, colon_pred(), i - lo);
        assert(s.skip(i - lo) =~= v@.subrange(i as int, hi as int));
    }
    i
}

/// One past the last index in `lo..hi` of `v` that is not a colon, or `lo`.
pub fn skip_colons_back(v: &Vec<char>, lo: usize, hi: usize) -> (k: usize)
    requires
        lo <= hi <= v@.len(),
    ensures
        lo <= k <= hi,
        strip_trailing(v@.subrange(lo as int, hi as int), colon_pred()) == v@.subrange(
            lo as int,
            k as int,
        ),
{
    let mut k = hi;
    while k > lo && v[k - 1] == ':'
        invariant
            lo <= k <= hi <= v@.len(),
            forall|j: int| k <= j < hi ==> v@[j] == ':',
        decreases k - lo,
    {
        k = k - 1;
    }
    proof {
        let s = v@.subrange(lo as int, hi as int);
        lemma_strip_trailing_at(s, colon_pred(), k - lo);
        assert(s.take(k - lo) =~= v@.subrange(lo as int, k as int));
    }
    k
}

/// Index of the first `c` in `lo..hi` of `v`, or `hi`.
pub fn find_char(v: &Vec<char>, lo: usize, hi: usize, c: char) -> (i: usize)
    requires
        lo <= hi <= v@.len(),
    ensures
        lo <= i <= hi,
        i - lo == index_of(v@.subrange(lo as int, hi as int), c),
{
    let mut i = lo;
    while i < hi && v[i] != c
        invariant
            lo <= i <= hi <= v@.len(),
            forall|j: int| lo <= j < i ==> v@[j] != c,
        decreases hi - i,
    {
        i = i + 1;
    }
    proof {
        lemma_index_of_at(v@.subrange(lo as int, hi as int), c, i - lo);
    }
    i
}

/// The characters of `s`, in order.
pub fn chars_of(s: &str) -> (v: Vec<char>)
    ensures
        v@ == s@,
{
    let mut v: Vec<char> = Vec::new();
    for c in it: s.chars()
        invariant
            v@ == it.seq().take(it.index() as int),
    {
        v.push(c);
    }
    v
}

/// Calls `String::push`. Trusted to append `c` to the characters of `s`, as
/// the documentation of `String::push` says.
#[verifier::external_body]
pub fn push_char(s: &mut String, c: char)
    ensures
        final(s)@ == old(s)@.push(c),
{
    s.push(c);
}

/// Appends `v[lo..hi]` to `out`.
pub fn push_range(out: &mut String, v: &Vec<char>, lo: usize, hi: usize)
    requires
        lo <= hi <= v@.len(),
    ensures
        final(out)@ == old(out)@ + v@.subrange(lo as int, hi as int),
{
    let mut i = lo;
    while i < hi
        invariant
            lo <= i <= hi <= v@.len(),
            out@ == old(out)@ + v@.subrange(lo as int, i as int),
        decreases hi - i,
    {
        push_char(out, v[i]);
        i = i + 1;
        assert(out@ =~= old(out)@ + v@.subrange(lo as int, i as int));
    }
}

/// A new string holding `v[lo..hi]`.
pub fn string_of(v: &Vec<char>, lo: usize, hi: usize) -> (s: String)
    requires
        lo <= hi <= v@.len(),
    ensures
        s@ == v@.subrange(lo as int, hi as int),
{
    let mut s = String::new();
    push_range(&mut s, v, lo, hi);
    assert(s@ =~= v@.subrange(lo as int, hi as int));
    s
}

/// Appends `t` to `out`.
pub fn push_str(out: &mut String, t: &str)
    ensures
        final(out)@ == old(out)@ + t@,
{
    out.append(t);
}

/// Whether two strings hold the same characters.
pub fn same_text(a: &str, b: &str) -> (r: bool)
    ensures
        r == (a@ == b@),
{
    if a.len() != b.len() {
        return false;
    }
    let x: String = a.to_owned();
    let y: String = b.to_owned();
    x == y
}

/// The texts of a sequence of strings.
pub open spec fn views(s: Seq<String>) -> Seq<Seq<char>> {
    s.map_values(|x: String| x@)
}

/// The first position of `key` among `names`.
pub fn position_of(names: &Vec<String>, key: &str) -> (r: Option<usize>)
    ensures
        r matches Some(k) ==> k < names@.len() && names@[k as int]@ == key@,
        r is None ==> forall|j: int| 0 <= j < names@.len() ==> names@[j]@ != key@,
{
    let mut k: usize = 0;
    while k < names.len()
        invariant
            k <= names@.len(),
            forall|j: int| 0 <= j < k ==> names@[j]@ != key@,
        decreases names@.len() - k,
    {
        if same_text(names[k].as_str(), key) {
            return Some(k);
        }
        k = k + 1;
    }
    None
}

} // verus!
