//! The shortcode grammar `:name:`, the normal form of shortcodes written in
//! `book.toml`, and the table type that maps shortcodes to text.
use vstd::prelude::*;
use crate::text::{
    chars_of, colon_pred, space_pred, same_text, skip_colons, skip_colons_back, skip_space, skip_space_back,
    string_of, strip_leading, strip_trailing, trim,
};

verus! {

/// A character allowed inside a shortcode: `[A-Za-z0-9_-]`.
pub open spec fn is_shortcode_char(c: char) -> bool {
    ('A' <= c && c <= 'Z') || ('a' <= c && c <= 'z') || ('0' <= c && c <= '9') || c == '_' || c
        == '-'
}

/// The first index at or after `i` whose character is not a shortcode character
/// (or `s.len()`).
pub open spec fn name_run_end(s: Seq<char>, i: int) -> int
    decreases s.len() - i,
{
    if i < 0 || i >= s.len() {
        s.len() as int
    } else if is_shortcode_char(s[i]) {
        name_run_end(s, i + 1)
    } else {
        i
    }
}

/// A shortcode `:name:` starts at index `i` of `s`: a colon, one or more
/// shortcode characters, and a closing colon.
pub open spec fn shortcode_at(s: Seq<char>, i: int) -> bool {
    &&& 0 <= i < s.len()
    &&& s[i] == ':'
    &&& name_run_end(s, i + 1) > i + 1
    &&& name_run_end(s, i + 1) < s.len()
    &&& s[name_run_end(s, i + 1)] == ':'
}

/// What a configured shortcode normalizes to: surrounding whitespace is trimmed,
/// then every leading and trailing colon.
pub open spec fn normalized(s: Seq<char>) -> Seq<char> {
    strip_trailing(strip_leading(trim(s), colon_pred()), colon_pred())
}

pub proof fn lemma_name_run_end_at(s: Seq<char>, i: int, k: int)
    requires
        0 <= i <= k <= s.len(),
        forall|j: int| i <= j < k ==> is_shortcode_char(s[j]),
        k == s.len() || !is_shortcode_char(s[k]),
    ensures
        name_run_end(s, i) == k,
    decreases k - i,
{
    if i < k {
        lemma_name_run_end_at(s, i + 1, k);
    }
}

pub proof fn lemma_name_run_end_bounds(s: Seq<char>, i: int)
    requires
        0 <= i <= s.len(),
    ensures
        i <= name_run_end(s, i) <= s.len(),
        forall|j: int| i <= j < name_run_end(s, i) ==> is_shortcode_char(#[trigger] s[j]),
    decreases s.len() - i,
{
    if i < s.len() && is_shortcode_char(s[i]) {
        lemma_name_run_end_bounds(s, i + 1);
    }
}

/// Whether `c` may stand inside a shortcode.
pub fn is_shortcode_char_exec(c: char) -> (b: bool)
    ensures
        b == is_shortcode_char(c),
{
    ('A' <= c && c <= 'Z') || ('a' <= c && c <= 'z') || ('0' <= c && c <= '9') || c == '_' || c
        == '-'
}

/// First index in `i..hi` of `v` that is not a shortcode character, or `hi`.
pub fn name_end(v: &Vec<char>, i: usize, hi: usize) -> (k: usize)
    requires
        i <= hi <= v@.len(),
    ensures
        i <= k <= hi,
        forall|j: int| i <= j < k ==> is_shortcode_char(#[trigger] v@[j]),
        k == hi || !is_shortcode_char(v@[k as int]),
{
    let mut k = i;
    while k < hi && is_shortcode_char_exec(v[k])
        invariant
            i <= k <= hi <= v@.len(),
            forall|j: int| i <= j < k ==> is_shortcode_char(#[trigger] v@[j]),
        decreases hi - k,
    {
        k = k + 1;
    }
    k
}

/// Normalizes a shortcode written in configuration: `" :star: "` becomes `"star"`.
pub fn normalize_shortcode(value: &str) -> (r: String)
    ensures
        r@ == normalized(value@),
{
    let v = chars_of(value);
    let n = v.len();
    let a = skip_space(&v, 0, n);
    let b = skip_space_back(&v, a, n);
    let c = skip_colons(&v, a, b);
    let d = skip_colons_back(&v, c, b);
    proof {
        assert(v@.subrange(0, n as int) =~= value@);
    }
    string_of(&v, c, d)
}

/// Stripping leading characters of `x + t`: when `x` has a character that
/// stays, `t` is untouched; when all of `x` goes, it is stripping `t`.
pub proof fn lemma_strip_leading_append(x: Seq<char>, t: Seq<char>, p: spec_fn(char) -> bool)
    ensures
        (exists|j: int| 0 <= j < x.len() && !p(x[j])) ==> strip_leading(x + t, p) == strip_leading(
            x,
            p,
        ) + t,
        (forall|j: int| 0 <= j < x.len() ==> p(x[j])) ==> strip_leading(x + t, p) == strip_leading(
            t,
            p,
        ),
    decreases x.len(),
{
    if x.len() == 0 {
        assert(x + t =~= t);
    } else {
        assert((x + t)[0] == x[0]);
        if p(x[0]) {
            assert((x + t).drop_first() =~= x.drop_first() + t);
            lemma_strip_leading_append(x.drop_first(), t, p);
            assert forall|j: int| 0 <= j < x.drop_first().len() && !p(x.drop_first()[j]) implies (
            exists|i: int| 0 <= i < x.len() && !p(x[i])) by {
                assert(x.drop_first()[j] == x[j + 1]);
            }
            if exists|j: int| 0 <= j < x.len() && !p(x[j]) {
                let j = choose|j: int| 0 <= j < x.len() && !p(x[j]);
                assert(j > 0);
                assert(x.drop_first()[j - 1] == x[j]);
            }
            if forall|j: int| 0 <= j < x.len() ==> p(x[j]) {
                assert forall|j: int| 0 <= j < x.drop_first().len() implies p(x.drop_first()[j]) by {
                    assert(x.drop_first()[j] == x[j + 1]);
                }
            }
        }
    }
}

/// Surrounding colons are optional when writing a shortcode in configuration:
/// `":name:"` normalizes to the same shortcode as `"name"`.
pub proof fn lemma_surrounding_colons_optional(x: Seq<char>)
    requires
        trim(x) == x,
    ensures
        normalized(seq![':'] + x + seq![':']) == normalized(x),
{
    let y = seq![':'] + x + seq![':'];
    let c = colon_pred();
    assert(y[0] == ':');
    assert(y[y.len() - 1] == ':');
    assert(strip_leading(y, space_pred()) == y);
    assert(strip_trailing(y, space_pred()) == y);
    assert(trim(y) == y);
    assert(y.drop_first() =~= x + seq![':']);
    assert(strip_leading(y, c) == strip_leading(x + seq![':'], c));
    lemma_strip_leading_append(x, seq![':'], c);
    lemma_strip_leading_append(x, Seq::<char>::empty(), c);
    assert(x + Seq::<char>::empty() =~= x);
    if exists|j: int| 0 <= j < x.len() && !c(x[j]) {
        let z = strip_leading(x, c);
        assert((z + seq![':']).drop_last() =~= z);
        assert((z + seq![':'])[(z + seq![':']).len() - 1] == ':');
    } else {
        let one = seq![':'];
        assert(one.drop_first() =~= Seq::<char>::empty());
        assert(strip_leading(one, c) == strip_leading(Seq::<char>::empty(), c));
    }
}

/// The map that a sequence of entries describes: a later entry for a key
/// overrides an earlier one.
pub open spec fn entries_map(s: Seq<(String, String)>) -> Map<Seq<char>, Seq<char>>
    decreases s.len(),
{
    if s.len() == 0 {
        Map::empty()
    } else {
        entries_map(s.drop_last()).insert(s.last().0@, s.last().1@)
    }
}

/// When no entry at or after `i` has key `k`, the prefix up to `i` decides `k`.
pub proof fn lemma_entries_map_prefix(s: Seq<(String, String)>, i: int, k: Seq<char>)
    requires
        0 <= i <= s.len(),
        forall|j: int| i <= j < s.len() ==> (#[trigger] s[j]).0@ != k,
    ensures
        entries_map(s).contains_key(k) == entries_map(s.take(i)).contains_key(k),
        entries_map(s).contains_key(k) ==> entries_map(s)[k] == entries_map(s.take(i))[k],
    decreases s.len() - i,
{
    if i == s.len() {
        assert(s.take(i) =~= s);
    } else {
        assert(s[s.len() - 1].0@ != k);
        lemma_entries_map_prefix(s.drop_last(), i, k);
        assert(s.drop_last().take(i) =~= s.take(i));
    }
}

proof fn lemma_entries_map_finite(s: Seq<(String, String)>)
    ensures
        entries_map(s).dom().finite(),
    decreases s.len(),
{
    if s.len() > 0 {
        lemma_entries_map_finite(s.drop_last());
    }
}

/// A table from shortcodes to text, used both for user aliases and for the
/// markup that each shortcode renders to.
pub struct ShortcodeMap {
    entries: Vec<(String, String)>,
}

impl View for ShortcodeMap {
    type V = Map<Seq<char>, Seq<char>>;

    closed spec fn view(&self) -> Map<Seq<char>, Seq<char>> {
        entries_map(self.entries@)
    }
}

impl ShortcodeMap {
    /// An empty table.
    pub fn new() -> (m: ShortcodeMap)
        ensures
            m@ == Map::<Seq<char>, Seq<char>>::empty(),
    {
        ShortcodeMap { entries: Vec::new() }
    }

    /// Sets `key` to `value`, replacing any earlier value.
    pub fn insert(&mut self, key: String, value: String)
        ensures
            final(self)@ == old(self)@.insert(key@, value@),
    {
        let ghost before = self.entries@;
        self.entries.push((key, value));
        proof {
            assert(self.entries@.drop_last() =~= before);
        }
    }

    /// The value stored for `key`, if any.
    pub fn get(&self, key: &str) -> (r: Option<String>)
        ensures
            r matches Some(v) ==> self@.contains_key(key@) && v@ == self@[key@],
            r is None ==> !self@.contains_key(key@),
    {
        let mut i = self.entries.len();
        while i > 0
            invariant
                i <= self.entries@.len(),
                forall|j: int| i <= j < self.entries@.len() ==> (#[trigger] self.entries@[j]).0@
                    != key@,
            decreases i,
        {
            if same_text(self.entries[i - 1].0.as_str(), key) {
                proof {
                    let s = self.entries@;
                    lemma_entries_map_prefix(s, i as int, key@);
                    assert(s.take(i as int).drop_last() =~= s.take(i - 1));
                }
                return Some(self.entries[i - 1].1.clone());
            }
            i = i - 1;
        }
        proof {
            lemma_entries_map_prefix(self.entries@, 0, key@);
        }
        None
    }

    /// The table has finitely many keys.
    pub proof fn lemma_finite(&self)
        ensures
            self@.dom().finite(),
    {
        lemma_entries_map_finite(self.entries@);
    }

    /// Whether `key` has a value.
    pub fn contains(&self, key: &str) -> (b: bool)
        ensures
            b == self@.contains_key(key@),
    {
        self.get(key).is_some()
    }
}

} // verus!
