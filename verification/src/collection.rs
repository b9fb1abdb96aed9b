//! Iconify collections: splitting a shortcode into collection prefix and icon
//! name, and resolving a name to an icon through the collection's aliases.
//!
//! Sizes are carried as an opaque type `D`: they are only chosen and passed on
//! here, never computed with.
use vstd::prelude::*;
use crate::text::{chars_of, position_of, same_text, string_of, views};
use crate::IconError;

verus! {

broadcast use {vstd::set::group_set_axioms, vstd::seq_lib::group_seq_properties};

/// The collection prefixes that are known to exist.
pub struct KnownPrefixes {
    names: Vec<String>,
}

impl View for KnownPrefixes {
    type V = Set<Seq<char>>;

    closed spec fn view(&self) -> Set<Seq<char>> {
        views(self.names@).to_set()
    }
}

impl KnownPrefixes {
    /// The prefixes named in `names`.
    pub fn from_names(names: Vec<String>) -> (k: KnownPrefixes)
        ensures
            k@ == views(names@).to_set(),
    {
        KnownPrefixes { names }
    }

    /// Whether `prefix` is known.
    pub fn contains(&self, prefix: &str) -> (b: bool)
        ensures
            b == self@.contains(prefix@),
    {
        let mut k: usize = 0;
        while k < self.names.len()
            invariant
                k <= self.names@.len(),
                forall|j: int| 0 <= j < k ==> self.names@[j]@ != prefix@,
            decreases self.names@.len() - k,
        {
            if same_text(self.names[k].as_str(), prefix) {
                assert(views(self.names@)[k as int] == prefix@);
                return true;
            }
            k = k + 1;
        }
        proof {
            if self@.contains(prefix@) {
                let j = choose|j: int|
                    0 <= j < views(self.names@).len() && views(self.names@)[j] == prefix@;
                assert(self.names@[j]@ == prefix@);
            }
        }
        false
    }
}

/// Splitting `s` at its `-` at index `i` gives a known prefix and a nonempty name.
pub open spec fn valid_split(s: Seq<char>, prefixes: Set<Seq<char>>, i: int) -> bool {
    &&& 0 <= i
    &&& i + 1 < s.len()
    &&& s[i] == '-'
    &&& prefixes.contains(s.take(i))
}

/// Splits a shortcode into collection prefix and icon name at the last `-`
/// whose left part is a known prefix and whose right part is not empty, so the
/// longest known prefix wins.
pub fn split_shortcode(prefixes: &KnownPrefixes, shortcode: &str) -> (r: Option<(String, String)>)
    ensures
        r matches Some((p, n)) ==> exists|i: int|
            {
                &&& valid_split(shortcode@, prefixes@, i)
                &&& p@ == shortcode@.take(i)
                &&& n@ == shortcode@.skip(i + 1)
                &&& forall|j: int| valid_split(shortcode@, prefixes@, j) ==> j <= i
            },
        r is None ==> forall|i: int| !valid_split(shortcode@, prefixes@, i),
{
    let v = chars_of(shortcode);
    let n = v.len();
    let mut best: Option<usize> = None;
    let mut i: usize = 0;
    while i < n
        invariant
            i <= n == v@.len(),
            v@ == shortcode@,
            best matches Some(b) ==> b < i && valid_split(shortcode@, prefixes@, b as int) && forall|
                j: int,
            | 0 <= j < i && valid_split(shortcode@, prefixes@, j) ==> j <= b,
            best is None ==> forall|j: int| 0 <= j < i ==> !valid_split(shortcode@, prefixes@, j),
        decreases n - i,
    {
        if v[i] == '-' && i + 1 < n {
            let prefix = string_of(&v, 0, i);
            proof {
                assert(prefix@ =~= shortcode@.take(i as int));
            }
            if prefixes.contains(prefix.as_str()) {
                best = Some(i);
            }
        }
        i = i + 1;
    }
    match best {
        Some(b) => {
            let prefix = string_of(&v, 0, b);
            let name = string_of(&v, b + 1, n);
            proof {
                assert(prefix@ =~= shortcode@.take(b as int));
                assert(name@ =~= shortcode@.skip(b + 1));
            }
            Some((prefix, name))
        },
        None => None,
    }
}

/// An icon of a collection: its SVG body and how it is drawn.
pub struct IconEntry<D> {
    pub body: String,
    pub width: Option<D>,
    pub height: Option<D>,
    pub h_flip: bool,
    pub v_flip: bool,
    pub rotate: u8,
}

/// An alias of a collection: another name for `parent`, with its own
/// adjustments on top of the parent's.
pub struct AliasEntry<D> {
    pub parent: String,
    pub width: Option<D>,
    pub height: Option<D>,
    pub h_flip: bool,
    pub v_flip: bool,
    pub rotate: u8,
}

/// An Iconify collection: default sizes, icons and aliases, each by name.
/// A collection read from JSON names each icon and alias once; where a name
/// occurs twice, its first entry counts (`lookup`).
pub struct Collection<D> {
    pub width: Option<D>,
    pub height: Option<D>,
    pub icons: Vec<(String, IconEntry<D>)>,
    pub aliases: Vec<(String, AliasEntry<D>)>,
}

/// An icon with all aliases applied: its body, size, quarter turns and flips.
pub struct ResolvedIcon<D> {
    pub body: String,
    pub width: D,
    pub height: D,
    pub rotate: u8,
    pub h_flip: bool,
    pub v_flip: bool,
}

/// Why a name of a collection could not be resolved.
pub enum Failure {
    Cycle(Seq<char>),
    Missing(Seq<char>),
}

/// The value of the first entry whose name is `key`.
pub open spec fn lookup<T>(s: Seq<(String, T)>, key: Seq<char>) -> Option<T>
    decreases s.len(),
{
    if s.len() == 0 {
        None
    } else if s[0].0@ == key {
        Some(s[0].1)
    } else {
        lookup(s.drop_first(), key)
    }
}

proof fn lemma_lookup_at<T>(s: Seq<(String, T)>, key: Seq<char>, i: int)
    requires
        0 <= i <= s.len(),
        forall|j: int| 0 <= j < i ==> (#[trigger] s[j]).0@ != key,
        i < s.len() ==> s[i].0@ == key,
    ensures
        lookup(s, key) == (if i < s.len() {
            Some(s[i].1)
        } else {
            None
        }),
    decreases i,
{
    if i > 0 {
        assert(s[0].0@ != key);
        assert forall|j: int| 0 <= j < i - 1 implies (#[trigger] s.drop_first()[j]).0@ != key by {
            assert(s.drop_first()[j] == s[j + 1]);
        }
        if i < s.len() {
            assert(s.drop_first()[i - 1] == s[i]);
        }
        lemma_lookup_at(s.drop_first(), key, i - 1);
    }
}

/// Where `key` first stands in `s`.
fn find_entry<T>(s: &Vec<(String, T)>, key: &str) -> (r: Option<usize>)
    ensures
        r matches Some(i) ==> i < s@.len() && lookup(s@, key@) == Some(s@[i as int].1),
        r is None ==> lookup(s@, key@) is None,
{
    let mut i: usize = 0;
    while i < s.len()
        invariant
            i <= s@.len(),
            forall|j: int| 0 <= j < i ==> (#[trigger] s@[j]).0@ != key@,
        decreases s@.len() - i,
    {
        if same_text(s[i].0.as_str(), key) {
            proof {
                lemma_lookup_at(s@, key@, i as int);
            }
            return Some(i);
        }
        i = i + 1;
    }
    proof {
        lemma_lookup_at(s@, key@, i as int);
    }
    None
}

/// The names of a collection's aliases.
pub open spec fn alias_names<D>(c: Collection<D>) -> Set<Seq<char>> {
    c.aliases@.map_values(|e: (String, AliasEntry<D>)| e.0@).to_set()
}

/// A name that `lookup` finds is among the names of the entries.
pub proof fn lemma_lookup_in_names<T>(s: Seq<(String, T)>, key: Seq<char>)
    requires
        lookup(s, key) is Some,
    ensures
        s.map_values(|e: (String, T)| e.0@).contains(key),
    decreases s.len(),
{
    let f = |e: (String, T)| e.0@;
    if s[0].0@ == key {
        assert(s.map_values(f)[0] == key);
    } else {
        lemma_lookup_in_names(s.drop_first(), key);
        let j = choose|j: int| 0 <= j < s.drop_first().len() && s.drop_first().map_values(f)[j] == key;
        assert(s.map_values(f)[j + 1] == key);
    }
}

/// The first size that is given, or `default`.
pub open spec fn size_or<D>(own: Option<D>, collection: Option<D>, default: D) -> D {
    match own {
        Some(x) => x,
        None => match collection {
            Some(x) => x,
            None => default,
        },
    }
}

/// An alias's adjustments applied to what its parent resolves to: its own
/// sizes replace the parent's, quarter turns add up modulo 4, flips toggle.
pub open spec fn apply_alias<D>(r: ResolvedIcon<D>, a: AliasEntry<D>) -> ResolvedIcon<D> {
    ResolvedIcon {
        body: r.body,
        width: match a.width {
            Some(w) => w,
            None => r.width,
        },
        height: match a.height {
            Some(h) => h,
            None => r.height,
        },
        rotate: ((r.rotate + a.rotate) % 4) as u8,
        h_flip: r.h_flip != a.h_flip,
        v_flip: r.v_flip != a.v_flip,
    }
}

/// What `name` resolves to in `c` when the names in `visited` have already been
/// followed: an icon of that name, else the alias of that name applied to what
/// its parent resolves to. Coming back to a visited name is a cycle.
pub open spec fn resolve_in<D>(
    c: Collection<D>,
    name: Seq<char>,
    visited: Set<Seq<char>>,
    default: D,
) -> Result<ResolvedIcon<D>, Failure>
    decreases alias_names(c).difference(visited).len(),
{
    if visited.contains(name) {
        Err(Failure::Cycle(name))
    } else {
        match lookup(c.icons@, name) {
            Some(icon) => Ok(
                ResolvedIcon {
                    body: icon.body,
                    width: size_or(icon.width, c.width, default),
                    height: size_or(icon.height, c.height, default),
                    rotate: (icon.rotate % 4) as u8,
                    h_flip: icon.h_flip,
                    v_flip: icon.v_flip,
                },
            ),
            None => match lookup(c.aliases@, name) {
                None => Err(Failure::Missing(name)),
                Some(a) => {
                    proof {
                        lemma_lookup_in_names(c.aliases@, name);
                        alias_names(c).lemma_set_insert_diff_decreases(visited, name);
                    }
                    match resolve_in(c, a.parent@, visited.insert(name), default) {
                        Err(e) => Err(e),
                        Ok(r) => Ok(apply_alias(r, a)),
                    }
                },
            },
        }
    }
}

/// The names that resolving `name` records as visited, in order: each name it
/// looks up (the aliases it follows, then the icon or missing name it ends
/// on), but none once it comes back to a visited name.
pub open spec fn followed<D>(c: Collection<D>, name: Seq<char>, visited: Set<Seq<char>>) -> Seq<
    Seq<char>,
>
    decreases alias_names(c).difference(visited).len(),
{
    if visited.contains(name) {
        Seq::empty()
    } else if lookup(c.icons@, name) is Some {
        seq![name]
    } else {
        match lookup(c.aliases@, name) {
            None => seq![name],
            Some(a) => {
                proof {
                    lemma_lookup_in_names(c.aliases@, name);
                    alias_names(c).lemma_set_insert_diff_decreases(visited, name);
                }
                seq![name] + followed(c, a.parent@, visited.insert(name))
            },
        }
    }
}

/// What `name` resolves to in `c`.
pub open spec fn resolved<D>(c: Collection<D>, name: Seq<char>, default: D) -> Result<
    ResolvedIcon<D>,
    Failure,
> {
    resolve_in(c, name, Set::empty(), default)
}

/// The exec error for a failure of resolution.
pub open spec fn error_matches(e: IconError, f: Failure) -> bool {
    match f {
        Failure::Cycle(n) => e matches IconError::IconAliasCycle(x) && x@ == n,
        Failure::Missing(n) => e matches IconError::MissingIcon(x) && x@ == n,
    }
}

/// The result of resolving, against its specification.
pub open spec fn result_matches<D>(
    r: Result<ResolvedIcon<D>, IconError>,
    s: Result<ResolvedIcon<D>, Failure>,
) -> bool {
    match (r, s) {
        (Ok(a), Ok(b)) => a == b,
        (Err(e), Err(f)) => error_matches(e, f),
        _ => false,
    }
}

/// Resolves `name` in `collection`, following aliases, with `visited` holding
/// the names visited so far; every name it looks up is added to it, as the
/// resolution records it (see `followed`).
pub fn resolve_from_collection<D: Copy>(
    collection: &Collection<D>,
    name: &str,
    visited: &mut Vec<String>,
    default_size: D,
) -> (r: Result<ResolvedIcon<D>, IconError>)
    ensures
        result_matches(
            r,
            resolve_in(*collection, name@, views(old(visited)@).to_set(), default_size),
        ),
        views(final(visited)@) == views(old(visited)@) + followed(
            *collection,
            name@,
            views(old(visited)@).to_set(),
        ),
    decreases alias_names(*collection).difference(views(old(visited)@).to_set()).len(),
{
    let ghost vset = views(visited@).to_set();
    if let Some(_k) = position_of(visited, name) {
        proof {
            assert(views(visited@)[_k as int] == name@);
        }
        assert(views(visited@) =~= views(visited@) + Seq::<Seq<char>>::empty());
        return Err(IconError::IconAliasCycle(name.to_owned()));
    }
    proof {
        if vset.contains(name@) {
            let j = choose|j: int| 0 <= j < views(visited@).len() && views(visited@)[j] == name@;
            assert(visited@[j]@ == name@);
        }
    }
    let ghost before = visited@;
    visited.push(name.to_owned());
    proof {
        assert(views(visited@) =~= views(before).push(name@));
        assert(views(visited@).to_set() =~= vset.insert(name@));
        assert(views(visited@) =~= views(before) + seq![name@]);
    }
    if let Some(i) = find_entry(&collection.icons, name) {
        let icon = &collection.icons[i].1;
        let width = match icon.width {
            Some(w) => w,
            None => match collection.width {
                Some(w) => w,
                None => default_size,
            },
        };
        let height = match icon.height {
            Some(h) => h,
            None => match collection.height {
                Some(h) => h,
                None => default_size,
            },
        };
        return Ok(
            ResolvedIcon {
                body: icon.body.clone(),
                width,
                height,
                rotate: icon.rotate % 4,
                h_flip: icon.h_flip,
                v_flip: icon.v_flip,
            },
        );
    }
    match find_entry(&collection.aliases, name) {
        None => Err(IconError::MissingIcon(name.to_owned())),
        Some(i) => {
            let alias = &collection.aliases[i].1;
            proof {
                lemma_lookup_in_names(collection.aliases@, name@);
                alias_names(*collection).lemma_set_insert_diff_decreases(vset, name@);
            }
            let resolved = resolve_from_collection(
                collection,
                alias.parent.as_str(),
                visited,
                default_size,
            );
            assert(views(visited@) =~= views(before) + followed(*collection, name@, vset));
            match resolved {
                Err(e) => Err(e),
                Ok(r) => {
                    let rotate = ((r.rotate as u16 + alias.rotate as u16) % 4) as u8;
                    Ok(
                        ResolvedIcon {
                            body: r.body,
                            width: match alias.width {
                                Some(w) => w,
                                None => r.width,
                            },
                            height: match alias.height {
                                Some(h) => h,
                                None => r.height,
                            },
                            rotate,
                            h_flip: r.h_flip != alias.h_flip,
                            v_flip: r.v_flip != alias.v_flip,
                        },
                    )
                },
            }
        },
    }
}

/// Resolves the icon `name` of `collection`; a size that neither the icon,
/// its aliases nor the collection give is `default_size`.
pub fn resolve_icon<D: Copy>(collection: &Collection<D>, name: &str, default_size: D) -> (r: Result<
    ResolvedIcon<D>,
    IconError,
>)
    ensures
        result_matches(r, resolved(*collection, name@, default_size)),
{
    let mut visited: Vec<String> = Vec::new();
    proof {
        assert(views(visited@).to_set() =~= Set::<Seq<char>>::empty());
    }
    resolve_from_collection(collection, name, &mut visited, default_size)
}

/// Whether resolving `x` with `visited` followed comes to the name `a`.
spec fn passes_through<D>(c: Collection<D>, x: Seq<char>, visited: Set<Seq<char>>, a: Seq<char>) -> bool
    decreases alias_names(c).difference(visited).len(),
{
    if visited.contains(x) {
        false
    } else if x == a {
        true
    } else if lookup(c.icons@, x) is Some {
        false
    } else {
        match lookup(c.aliases@, x) {
            None => false,
            Some(e) => {
                proof {
                    lemma_lookup_in_names(c.aliases@, x);
                    alias_names(c).lemma_set_insert_diff_decreases(visited, x);
                }
                passes_through(c, e.parent@, visited.insert(x), a)
            },
        }
    }
}

/// A resolved icon turns by fewer than four quarter turns.
pub proof fn lemma_resolved_rotate_small<D>(
    c: Collection<D>,
    x: Seq<char>,
    visited: Set<Seq<char>>,
    d: D,
)
    requires
        resolve_in(c, x, visited, d) is Ok,
    ensures
        resolve_in(c, x, visited, d)->Ok_0.rotate < 4,
    decreases alias_names(c).difference(visited).len(),
{
    if lookup(c.icons@, x) is None {
        let e = lookup(c.aliases@, x)->Some_0;
        lemma_lookup_in_names(c.aliases@, x);
        alias_names(c).lemma_set_insert_diff_decreases(visited, x);
        lemma_resolved_rotate_small(c, e.parent@, visited.insert(x), d);
    }
}

/// Marking a name as followed changes nothing when resolution never comes to it.
proof fn lemma_unreached_name<D>(
    c: Collection<D>,
    x: Seq<char>,
    visited: Set<Seq<char>>,
    a: Seq<char>,
    d: D,
)
    requires
        resolve_in(c, x, visited, d) is Ok,
        !passes_through(c, x, visited, a),
    ensures
        resolve_in(c, x, visited.insert(a), d) == resolve_in(c, x, visited, d),
    decreases alias_names(c).difference(visited).len(),
{
    if lookup(c.icons@, x) is None {
        let e = lookup(c.aliases@, x)->Some_0;
        lemma_lookup_in_names(c.aliases@, x);
        alias_names(c).lemma_set_insert_diff_decreases(visited, x);
        lemma_unreached_name(c, e.parent@, visited.insert(x), a, d);
        assert(visited.insert(a).insert(x) =~= visited.insert(x).insert(a));
    }
}

/// When resolution comes to the name `a`, it resolves `a` too, with more names
/// followed, among them the name it started from.
proof fn lemma_reached_name<D>(
    c: Collection<D>,
    x: Seq<char>,
    visited: Set<Seq<char>>,
    a: Seq<char>,
    d: D,
) -> (w: Set<Seq<char>>)
    requires
        resolve_in(c, x, visited, d) is Ok,
        passes_through(c, x, visited, a),
    ensures
        visited.subset_of(w),
        x == a || w.contains(x),
        resolve_in(c, a, w, d) is Ok,
    decreases alias_names(c).difference(visited).len(),
{
    if x == a {
        visited
    } else {
        let e = lookup(c.aliases@, x)->Some_0;
        lemma_lookup_in_names(c.aliases@, x);
        alias_names(c).lemma_set_insert_diff_decreases(visited, x);
        lemma_reached_name(c, e.parent@, visited.insert(x), a, d)
    }
}

/// An alias resolves on top of what its parent resolves to: the same body,
/// its own sizes where it gives them and the parent's otherwise, its quarter
/// turns added to the parent's modulo 4, and each of its flips toggling the
/// parent's (an alias with `hFlip` over an unflipped parent is mirrored).
pub proof fn lemma_alias_composes<D>(c: Collection<D>, name: Seq<char>, a: AliasEntry<D>, d: D)
    requires
        lookup(c.icons@, name) is None,
        lookup(c.aliases@, name) == Some(a),
        resolved(c, a.parent@, d) is Ok,
    ensures
        resolved(c, name, d) is Ok,
        ({
            let r = resolved(c, name, d)->Ok_0;
            let q = resolved(c, a.parent@, d)->Ok_0;
            &&& r.body == q.body
            &&& r.width == (if a.width is Some {
                a.width->Some_0
            } else {
                q.width
            })
            &&& r.height == (if a.height is Some {
                a.height->Some_0
            } else {
                q.height
            })
            &&& r.rotate as int == (q.rotate as int + a.rotate as int) % 4
            &&& r.h_flip == (q.h_flip != a.h_flip)
            &&& r.v_flip == (q.v_flip != a.v_flip)
        }),
{
    let p = a.parent@;
    let none = Set::<Seq<char>>::empty();
    if passes_through(c, p, none, name) {
        let w = lemma_reached_name(c, p, none, name, d);
        assert(w.insert(name).contains(p));
        assert(resolve_in(c, p, w.insert(name), d) is Err);
        assert(false);
    } else {
        lemma_unreached_name(c, p, none, name, d);
        let q = resolve_in(c, p, none, d)->Ok_0;
        assert(resolve_in(c, p, none.insert(name), d) == Ok::<ResolvedIcon<D>, Failure>(q));
        assert(resolved(c, name, d) == Ok::<ResolvedIcon<D>, Failure>(apply_alias(q, a)));
    }
}

/// An alias that adds no adjustment (no sizes, no turn, no flip) resolves to
/// exactly what its parent resolves to.
pub proof fn lemma_plain_alias_resolves_as_parent<D>(
    c: Collection<D>,
    name: Seq<char>,
    a: AliasEntry<D>,
    d: D,
)
    requires
        lookup(c.icons@, name) is None,
        lookup(c.aliases@, name) == Some(a),
        a.width is None,
        a.height is None,
        a.rotate % 4 == 0,
        !a.h_flip,
        !a.v_flip,
        resolved(c, a.parent@, d) is Ok,
    ensures
        resolved(c, name, d) == resolved(c, a.parent@, d),
{
    lemma_alias_composes(c, name, a, d);
    lemma_resolved_rotate_small(c, a.parent@, Set::empty(), d);
    let r = resolved(c, name, d)->Ok_0;
    let q = resolved(c, a.parent@, d)->Ok_0;
    assert((q.rotate + a.rotate) % 4 == q.rotate) by (nonlinear_arith)
        requires
            q.rotate < 4,
            a.rotate % 4 == 0,
    ;
    assert(r == q);
}

/// `x` is followed on to a parent: it is no icon but an alias.
pub open spec fn steps_on<D>(c: Collection<D>, x: Seq<char>) -> bool {
    lookup(c.icons@, x) is None && lookup(c.aliases@, x) is Some
}

/// The parent of the alias `x`.
pub open spec fn parent_of<D>(c: Collection<D>, x: Seq<char>) -> Seq<char> {
    lookup(c.aliases@, x)->Some_0.parent@
}

/// The names met resolving from `x`: `x`, then the parent of each name that is
/// no icon but an alias; the chain rests on the first name that is not.
pub open spec fn name_chain<D>(c: Collection<D>, x: Seq<char>, k: nat) -> Seq<char>
    decreases k,
{
    if k == 0 {
        x
    } else if steps_on(c, x) {
        name_chain(c, parent_of(c, x), (k - 1) as nat)
    } else {
        x
    }
}

/// The first `k` names of the chain are aliases, none visited before and no
/// two the same.
pub open spec fn fresh_path<D>(c: Collection<D>, x: Seq<char>, visited: Set<Seq<char>>, k: nat) -> bool {
    &&& forall|t: nat| t < k ==> steps_on(c, #[trigger] name_chain(c, x, t))
    &&& forall|t: nat| t < k ==> !visited.contains(#[trigger] name_chain(c, x, t))
    &&& forall|i: nat, j: nat|
        i < j < k ==> #[trigger] name_chain(c, x, i) != #[trigger] name_chain(c, x, j)
}

/// The name at step `k` was met before: it is visited, or an earlier step.
pub open spec fn met_before<D>(c: Collection<D>, x: Seq<char>, visited: Set<Seq<char>>, k: nat) -> bool {
    visited.contains(name_chain(c, x, k)) || exists|i: nat|
        i < k && #[trigger] name_chain(c, x, i) == name_chain(c, x, k)
}

/// The chain reaches an icon at step `k`, through fresh aliases only.
pub open spec fn ends_at_icon<D>(c: Collection<D>, x: Seq<char>, visited: Set<Seq<char>>, k: nat) -> bool {
    &&& fresh_path(c, x, visited, k)
    &&& !met_before(c, x, visited, k)
    &&& lookup(c.icons@, name_chain(c, x, k)) is Some
}

/// The chain fails at step `k`, after fresh aliases only: the name there was
/// met before (a cycle), or is neither an icon nor an alias.
pub open spec fn ends_in_error<D>(c: Collection<D>, x: Seq<char>, visited: Set<Seq<char>>, k: nat) -> bool {
    &&& fresh_path(c, x, visited, k)
    &&& (met_before(c, x, visited, k) || (lookup(c.icons@, name_chain(c, x, k)) is None && lookup(
        c.aliases@,
        name_chain(c, x, k),
    ) is None))
}

/// Resolution succeeds exactly when the chain of names reaches an icon through
/// fresh aliases, and fails exactly when it comes, through fresh aliases, to a
/// name visited or met before (a cycle) or to a name that is neither an icon
/// nor an alias.
pub proof fn lemma_resolution_by_chain<D>(
    c: Collection<D>,
    x: Seq<char>,
    visited: Set<Seq<char>>,
    d: D,
)
    ensures
        resolve_in(c, x, visited, d) is Ok <==> exists|k: nat| ends_at_icon(c, x, visited, k),
        resolve_in(c, x, visited, d) is Err <==> exists|k: nat| ends_in_error(c, x, visited, k),
    decreases alias_names(c).difference(visited).len(),
{
    assert(name_chain(c, x, 0) == x);
    if visited.contains(x) {
        assert(met_before(c, x, visited, 0));
        assert(ends_in_error(c, x, visited, 0));
        assert forall|k: nat| !ends_at_icon(c, x, visited, k) by {
            if ends_at_icon(c, x, visited, k) && k > 0 {
                assert(!visited.contains(name_chain(c, x, 0)));
            }
        }
    } else if lookup(c.icons@, x) is Some {
        assert(!met_before(c, x, visited, 0));
        assert(ends_at_icon(c, x, visited, 0));
        assert forall|k: nat| !ends_in_error(c, x, visited, k) by {
            if k > 0 {
                assert(steps_on(c, name_chain(c, x, 0)) ==> false);
            }
        }
    } else if lookup(c.aliases@, x) is None {
        assert(ends_in_error(c, x, visited, 0));
        assert forall|k: nat| !ends_at_icon(c, x, visited, k) by {
            if k > 0 {
                assert(steps_on(c, name_chain(c, x, 0)) ==> false);
            }
        }
    } else {
        let p = parent_of(c, x);
        let v2 = visited.insert(x);
        lemma_lookup_in_names(c.aliases@, x);
        alias_names(c).lemma_set_insert_diff_decreases(visited, x);
        lemma_resolution_by_chain(c, p, v2, d);
        assert(steps_on(c, x));
        assert forall|t: nat| #[trigger] name_chain(c, x, t + 1) == name_chain(c, p, t) by {}
        // A path from `x` is `x` followed by a path from its parent.
        assert forall|k: nat| ends_at_icon(c, x, visited, k + 1) <==> ends_at_icon(c, p, v2, k) by {
            lemma_shift(c, x, visited, k);
        }
        assert forall|k: nat| ends_in_error(c, x, visited, k + 1) <==> ends_in_error(c, p, v2, k) by {
            lemma_shift(c, x, visited, k);
        }
        assert(!ends_at_icon(c, x, visited, 0));
        assert(!ends_in_error(c, x, visited, 0)) by {
            if met_before(c, x, visited, 0) {
                if !visited.contains(name_chain(c, x, 0)) {
                    let i = choose|i: nat| i < 0 && #[trigger] name_chain(c, x, i) == name_chain(c, x, 0);
                }
            }
        }
        if resolve_in(c, x, visited, d) is Ok {
            let k = choose|k: nat| ends_at_icon(c, p, v2, k);
            assert(ends_at_icon(c, x, visited, k + 1));
        } else {
            let k = choose|k: nat| ends_in_error(c, p, v2, k);
            assert(ends_in_error(c, x, visited, k + 1));
        }
        assert forall|k: nat| ends_at_icon(c, x, visited, k) implies resolve_in(c, x, visited, d) is Ok by {
            assert(k > 0);
            assert(ends_at_icon(c, p, v2, (k - 1) as nat));
        }
        assert forall|k: nat| ends_in_error(c, x, visited, k) implies resolve_in(c, x, visited, d) is Err by {
            assert(k > 0);
            assert(ends_in_error(c, p, v2, (k - 1) as nat));
        }
    }
}

/// One step along the chain: from `x` (an alias) to its parent, with `x`
/// counted as visited.
proof fn lemma_shift<D>(c: Collection<D>, x: Seq<char>, visited: Set<Seq<char>>, k: nat)
    requires
        !visited.contains(x),
        steps_on(c, x),
    ensures
        fresh_path(c, x, visited, k + 1) <==> fresh_path(c, parent_of(c, x), visited.insert(x), k),
        met_before(c, x, visited, k + 1) <==> met_before(c, parent_of(c, x), visited.insert(x), k),
        name_chain(c, x, k + 1) == name_chain(c, parent_of(c, x), k),
{
    let p = parent_of(c, x);
    let v2 = visited.insert(x);
    assert(name_chain(c, x, 0) == x);
    assert forall|t: nat| #[trigger] name_chain(c, x, t + 1) == name_chain(c, p, t) by {}
    if fresh_path(c, x, visited, k + 1) {
        assert forall|t: nat| t < k implies steps_on(c, #[trigger] name_chain(c, p, t)) by {
            assert(name_chain(c, x, t + 1) == name_chain(c, p, t));
        }
        assert forall|t: nat| t < k implies !v2.contains(#[trigger] name_chain(c, p, t)) by {
            assert(name_chain(c, x, t + 1) == name_chain(c, p, t));
            assert(name_chain(c, x, 0) != name_chain(c, x, t + 1));
        }
        assert forall|i: nat, j: nat| i < j < k implies #[trigger] name_chain(c, p, i)
            != #[trigger] name_chain(c, p, j) by {
            assert(name_chain(c, x, i + 1) == name_chain(c, p, i));
            assert(name_chain(c, x, j + 1) == name_chain(c, p, j));
        }
    }
    if fresh_path(c, p, v2, k) {
        assert forall|t: nat| t < k + 1 implies steps_on(c, #[trigger] name_chain(c, x, t)) by {
            if t > 0 {
                assert(name_chain(c, x, (t - 1) as nat + 1) == name_chain(c, p, (t - 1) as nat));
            }
        }
        assert forall|t: nat| t < k + 1 implies !visited.contains(#[trigger] name_chain(c, x, t)) by {
            if t > 0 {
                assert(name_chain(c, x, (t - 1) as nat + 1) == name_chain(c, p, (t - 1) as nat));
            }
        }
        assert forall|i: nat, j: nat| i < j < k + 1 implies #[trigger] name_chain(c, x, i)
            != #[trigger] name_chain(c, x, j) by {
            assert(name_chain(c, x, (j - 1) as nat + 1) == name_chain(c, p, (j - 1) as nat));
            if i > 0 {
                assert(name_chain(c, x, (i - 1) as nat + 1) == name_chain(c, p, (i - 1) as nat));
            } else {
                assert(!v2.contains(name_chain(c, p, (j - 1) as nat)));
            }
        }
    }
    let last = name_chain(c, p, k);
    assert(name_chain(c, x, k + 1) == last);
    if met_before(c, x, visited, k + 1) {
        if !visited.contains(last) {
            let i = choose|i: nat| i < k + 1 && #[trigger] name_chain(c, x, i) == name_chain(c, x, k + 1);
            if i == 0 {
                assert(v2.contains(last));
            } else {
                assert(name_chain(c, x, (i - 1) as nat + 1) == name_chain(c, p, (i - 1) as nat));
                assert(name_chain(c, p, (i - 1) as nat) == last);
            }
        }
    }
    if met_before(c, p, v2, k) {
        if !v2.contains(last) {
            let i = choose|i: nat| i < k && #[trigger] name_chain(c, p, i) == name_chain(c, p, k);
            assert(name_chain(c, x, i + 1) == name_chain(c, p, i));
        } else if last == x {
            assert(name_chain(c, x, 0) == name_chain(c, x, k + 1));
        }
    }
}

} // verus!
