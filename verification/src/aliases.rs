//! User aliases from `book.toml`: reading them, and following them to the
//! shortcode they stand for.
use vstd::prelude::*;
use crate::shortcode::{normalize_shortcode, normalized, ShortcodeMap};
use crate::text::{position_of, same_text};
use crate::IconError;

verus! {

broadcast use vstd::set::group_set_axioms;

/// The aliases that the `[preprocessor.icons.aliases]` entries define: each
/// entry whose value is a string, with key and value normalized, and kept only
/// when both are nonempty. A later entry for the same alias wins.
pub open spec fn aliases_from(entries: Seq<(String, Option<String>)>) -> Map<Seq<char>, Seq<char>>
    decreases entries.len(),
{
    if entries.len() == 0 {
        Map::empty()
    } else {
        let before = aliases_from(entries.drop_last());
        let (key, value) = entries.last();
        match value {
            Some(target) => {
                let a = normalized(key@);
                let t = normalized(target@);
                if a.len() > 0 && t.len() > 0 {
                    before.insert(a, t)
                } else {
                    before
                }
            },
            None => before,
        }
    }
}

/// Builds the alias table from the entries of `[preprocessor.icons.aliases]`,
/// each a key and, when the value is a string, that string.
pub fn load_aliases(entries: &Vec<(String, Option<String>)>) -> (m: ShortcodeMap)
    ensures
        m@ == aliases_from(entries@),
{
    let mut m = ShortcodeMap::new();
    let mut i: usize = 0;
    while i < entries.len()
        invariant
            i <= entries@.len(),
            m@ == aliases_from(entries@.take(i as int)),
        decreases entries@.len() - i,
    {
        proof {
            assert(entries@.take(i + 1).drop_last() =~= entries@.take(i as int));
        }
        if let Some(target) = &entries[i].1 {
            let alias = normalize_shortcode(entries[i].0.as_str());
            let target = normalize_shortcode(target.as_str());
            if !alias.as_str().is_empty() && !target.as_str().is_empty() {
                m.insert(alias, target);
            }
        }
        i = i + 1;
    }
    assert(entries@.take(i as int) =~= entries@);
    m
}

/// Entry `i` defines the alias `a`: its value is a string, its key
/// normalizes to `a`, and neither normalized part is empty.
pub open spec fn entry_defines(entries: Seq<(String, Option<String>)>, i: int, a: Seq<char>) -> bool {
    &&& 0 <= i < entries.len()
    &&& entries[i].1 is Some
    &&& normalized(entries[i].0@) == a
    &&& a.len() > 0
    &&& normalized(entries[i].1->Some_0@).len() > 0
}

proof fn lemma_alias_point(entries: Seq<(String, Option<String>)>, a: Seq<char>)
    ensures
        aliases_from(entries).contains_key(a) ==> a.len() > 0 && aliases_from(entries)[a].len() > 0,
        aliases_from(entries).contains_key(a) <==> exists|i: int| entry_defines(entries, i, a),
        forall|i: int|
            entry_defines(entries, i, a) && (forall|j: int| i < j ==> !entry_defines(entries, j, a))
                ==> aliases_from(entries)[a] == normalized(entries[i].1->Some_0@),
    decreases entries.len(),
{
    if entries.len() == 0 {
        assert forall|i: int| !entry_defines(entries, i, a) by {}
    } else {
        let pre = entries.drop_last();
        let n = entries.len() - 1;
        let before = aliases_from(pre);
        let last = entries.last();
        lemma_alias_point(pre, a);
        assert forall|i: int| 0 <= i < n implies entry_defines(pre, i, a) == entry_defines(
            entries,
            i,
            a,
        ) by {
            assert(pre[i] == entries[i]);
        }
        assert(last == entries[n]);
        if entry_defines(entries, n, a) {
            assert(aliases_from(entries) == before.insert(a, normalized(last.1->Some_0@)));
            assert forall|i: int|
                entry_defines(entries, i, a) && (forall|j: int|
                    i < j ==> !entry_defines(entries, j, a)) implies aliases_from(entries)[a]
                == normalized(entries[i].1->Some_0@) by {
                if i < n {
                    assert(!entry_defines(entries, n, a));
                }
            }
        } else {
            assert(!aliases_from(entries).contains_key(a) || aliases_from(entries)[a] == before[a]);
            assert(aliases_from(entries).contains_key(a) == before.contains_key(a));
            if exists|i: int| entry_defines(entries, i, a) {
                let i = choose|i: int| entry_defines(entries, i, a);
                assert(i < n);
                assert(entry_defines(pre, i, a));
            }
            if exists|i: int| entry_defines(pre, i, a) {
                let i = choose|i: int| entry_defines(pre, i, a);
                assert(entry_defines(entries, i, a));
            }
            assert forall|i: int|
                entry_defines(entries, i, a) && (forall|j: int|
                    i < j ==> !entry_defines(entries, j, a)) implies aliases_from(entries)[a]
                == normalized(entries[i].1->Some_0@) by {
                assert(i < n);
                assert(entry_defines(pre, i, a));
                assert forall|j: int| i < j implies !entry_defines(pre, j, a) by {
                    if j < n {
                        assert(!entry_defines(entries, j, a));
                    }
                }
            }
        }
    }
}

/// The alias table holds exactly the aliases that some entry defines, each
/// with the normalized value of the last entry that defines it; no alias and
/// no target is empty.
pub proof fn lemma_aliases_from_entries(entries: Seq<(String, Option<String>)>)
    ensures
        forall|a: Seq<char>| #[trigger]
            aliases_from(entries).contains_key(a) ==> a.len() > 0 && aliases_from(entries)[a].len()
                > 0,
        forall|a: Seq<char>| #[trigger]
            aliases_from(entries).contains_key(a) <==> exists|i: int| entry_defines(entries, i, a),
        forall|a: Seq<char>, i: int|
            #[trigger] entry_defines(entries, i, a) && (forall|j: int|
                i < j ==> !entry_defines(entries, j, a)) ==> aliases_from(entries)[a] == normalized(
                entries[i].1->Some_0@,
            ),
{
    assert forall|a: Seq<char>| #[trigger] aliases_from(entries).contains_key(a) ==> a.len() > 0
        && aliases_from(entries)[a].len() > 0 by {
        lemma_alias_point(entries, a);
    }
    assert forall|a: Seq<char>| #[trigger] aliases_from(entries).contains_key(a) <==> exists|i: int|
        entry_defines(entries, i, a) by {
        lemma_alias_point(entries, a);
    }
    assert forall|a: Seq<char>, i: int|
        #[trigger] entry_defines(entries, i, a) && (forall|j: int|
            i < j ==> !entry_defines(entries, j, a)) implies aliases_from(entries)[a] == normalized(
        entries[i].1->Some_0@,
    ) by {
        lemma_alias_point(entries, a);
    }
}

/// One step along the aliases: the target of `s`, or `s` when it is no alias.
pub open spec fn alias_step(m: Map<Seq<char>, Seq<char>>, s: Seq<char>) -> Seq<char> {
    if m.contains_key(s) {
        m[s]
    } else {
        s
    }
}

/// `s` after `n` alias steps.
pub open spec fn alias_chain(m: Map<Seq<char>, Seq<char>>, s: Seq<char>, n: nat) -> Seq<char>
    decreases n,
{
    if n == 0 {
        s
    } else {
        alias_step(m, alias_chain(m, s, (n - 1) as nat))
    }
}

proof fn lemma_chain_add(m: Map<Seq<char>, Seq<char>>, s: Seq<char>, a: nat, b: nat)
    ensures
        alias_chain(m, s, a + b) == alias_chain(m, alias_chain(m, s, a), b),
    decreases b,
{
    if b > 0 {
        lemma_chain_add(m, s, a, (b - 1) as nat);
        assert((a + b - 1) as nat == a + (b - 1) as nat);
    }
}

/// Once the chain repeats a shortcode, every later step is an alias too.
proof fn lemma_cycle_point(m: Map<Seq<char>, Seq<char>>, s: Seq<char>, j: nat, i: nat, n: nat)
    requires
        j < i,
        alias_chain(m, s, i) == alias_chain(m, s, j),
        forall|t: nat| t <= i ==> m.contains_key(#[trigger] alias_chain(m, s, t)),
    ensures
        m.contains_key(alias_chain(m, s, n)),
    decreases n,
{
    if n > i {
        let d = (n - i) as nat;
        lemma_chain_add(m, s, i, d);
        lemma_chain_add(m, s, j, d);
        assert(alias_chain(m, s, n) == alias_chain(m, s, j + d));
        lemma_cycle_point(m, s, j, i, j + d);
    }
}

/// The alias chain of `s` repeats a shortcode: two of its steps are equal,
/// and every step before the later one is an alias.
pub open spec fn chain_repeats(m: Map<Seq<char>, Seq<char>>, s: Seq<char>) -> bool {
    exists|i: nat, j: nat|
        i < j && #[trigger] alias_chain(m, s, i) == #[trigger] alias_chain(m, s, j) && forall|t: nat|
            t < j ==> m.contains_key(#[trigger] alias_chain(m, s, t))
}

/// A chain that repeats never leaves the aliases.
proof fn lemma_repeat_stays(m: Map<Seq<char>, Seq<char>>, s: Seq<char>)
    requires
        chain_repeats(m, s),
    ensures
        forall|n: nat| m.contains_key(#[trigger] alias_chain(m, s, n)),
{
    let (i, j) = choose|i: nat, j: nat|
        i < j && #[trigger] alias_chain(m, s, i) == #[trigger] alias_chain(m, s, j) && forall|t: nat|
            t < j ==> m.contains_key(#[trigger] alias_chain(m, s, t));
    assert forall|t: nat| t <= j implies m.contains_key(#[trigger] alias_chain(m, s, t)) by {
        if t == j {
            assert(m.contains_key(alias_chain(m, s, i)));
        }
    }
    assert forall|n: nat| m.contains_key(#[trigger] alias_chain(m, s, n)) by {
        lemma_cycle_point(m, s, i, j, n);
    }
}

/// Once the chain leaves the aliases, it stays where it is.
proof fn lemma_chain_rests(m: Map<Seq<char>, Seq<char>>, s: Seq<char>, n: nat, k: nat)
    requires
        !m.contains_key(alias_chain(m, s, n)),
        n <= k,
    ensures
        alias_chain(m, s, k) == alias_chain(m, s, n),
    decreases k - n,
{
    if k > n {
        lemma_chain_rests(m, s, n, (k - 1) as nat);
    }
}

/// Where an alias chain ends is unique: two steps that both stand outside the
/// aliases name the same shortcode.
pub proof fn lemma_alias_target_unique(m: Map<Seq<char>, Seq<char>>, s: Seq<char>, n1: nat, n2: nat)
    requires
        !m.contains_key(alias_chain(m, s, n1)),
        !m.contains_key(alias_chain(m, s, n2)),
    ensures
        alias_chain(m, s, n1) == alias_chain(m, s, n2),
{
    if n1 <= n2 {
        lemma_chain_rests(m, s, n1, n2);
    } else {
        lemma_chain_rests(m, s, n2, n1);
    }
}

/// Follows the user aliases from `shortcode` to a shortcode that is no alias.
/// Fails exactly when the chain repeats a shortcode, which is the same as no
/// step of the chain ever leaving the aliases.
pub fn resolve_user_alias(aliases: &ShortcodeMap, shortcode: &str) -> (r: Result<String, IconError>)
    ensures
        r matches Ok(t) ==> !aliases@.contains_key(t@) && exists|n: nat| alias_chain(
            aliases@,
            shortcode@,
            n,
        ) == t@,
        r matches Err(e) ==> e matches IconError::UserAliasCycle(x) && x@ == shortcode@,
        r is Err <==> forall|n: nat| aliases@.contains_key(#[trigger] alias_chain(
            aliases@,
            shortcode@,
            n,
        )),
        r is Err <==> chain_repeats(aliases@, shortcode@),
{
    let ghost m = aliases@;
    let ghost s = shortcode@;
    let mut current: String = shortcode.to_owned();
    let mut visited: Vec<String> = Vec::new();
    let ghost mut seen: Set<Seq<char>> = Set::empty();
    proof {
        aliases.lemma_finite();
    }
    loop
        invariant
            m == aliases@,
            s == shortcode@,
            m.dom().finite(),
            seen.finite(),
            seen.subset_of(m.dom()),
            seen.len() == visited@.len(),
            current@ == alias_chain(m, s, visited@.len() as nat),
            forall|j: int| 0 <= j < visited@.len() ==> (#[trigger] visited@[j])@ == alias_chain(
                m,
                s,
                j as nat,
            ) && seen.contains(visited@[j]@),
            forall|x: Seq<char>| #[trigger] seen.contains(x) ==> exists|j: int|
                0 <= j < visited@.len() && visited@[j]@ == x,
        decreases m.dom().difference(seen).len(),
    {
        let ghost i = visited@.len() as nat;
        match aliases.get(current.as_str()) {
            None => {
                proof {
                    assert(alias_chain(m, s, i) == current@);
                    if chain_repeats(m, s) {
                        lemma_repeat_stays(m, s);
                        assert(m.contains_key(alias_chain(m, s, i)));
                    }
                }
                return Ok(current);
            },
            Some(next) => {
                if let Some(k) = position_of(&visited, current.as_str()) {
                    proof {
                        let jj = k as nat;
                        assert(visited@[k as int]@ == alias_chain(m, s, jj));
                        assert forall|t: nat| t <= i implies m.contains_key(
                            #[trigger] alias_chain(m, s, t),
                        ) by {
                            if t < i {
                                assert(visited@[t as int]@ == alias_chain(m, s, t));
                                assert(seen.contains(visited@[t as int]@));
                            }
                        }
                        assert forall|n: nat| m.contains_key(#[trigger] alias_chain(m, s, n)) by {
                            lemma_cycle_point(m, s, jj, i, n);
                        }
                        assert(alias_chain(m, s, jj) == alias_chain(m, s, i));
                        assert(chain_repeats(m, s));
                    }
                    return Err(IconError::UserAliasCycle(shortcode.to_owned()));
                }
                let ghost old_visited = visited@;
                let ghost old_seen = seen;
                proof {
                    assert(!seen.contains(current@)) by {
                        if seen.contains(current@) {
                            let j = choose|j: int|
                                0 <= j < visited@.len() && visited@[j]@ == current@;
                            assert(visited@[j]@ == current@);
                        }
                    }
                    m.dom().lemma_set_insert_diff_decreases(seen, current@);
                    seen = seen.insert(current@);
                }
                visited.push(current);
                current = next;
                proof {
                    assert(current@ == alias_chain(m, s, i + 1));
                    assert forall|j: int| 0 <= j < visited@.len() implies (
                    #[trigger] visited@[j])@ == alias_chain(m, s, j as nat) && seen.contains(
                        visited@[j]@,
                    ) by {
                        if j < old_visited.len() {
                            assert(visited@[j] == old_visited[j]);
                        }
                    }
                    assert forall|x: Seq<char>| #[trigger] seen.contains(x) implies exists|j: int|
                        0 <= j < visited@.len() && visited@[j]@ == x by {
                        if x == visited@[i as int]@ {
                            assert(visited@[i as int]@ == x);
                        } else {
                            assert(old_seen.contains(x));
                            let j = choose|j: int| 0 <= j < old_visited.len() && old_visited[j]@ == x;
                            assert(visited@[j] == old_visited[j]);
                        }
                    }
                }
            },
        }
    }
}

} // verus!
