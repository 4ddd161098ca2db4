use vstd::prelude::*;
use crate::chain::{
    PrefixConflict, SearchResult, ascending, continuations, is_prefix, prefix_conflict,
    strict_prefix,
};

verus! {

/// The bindings left by inserting `pairs` one after another into an empty tree.
pub open spec fn build<V>(pairs: Seq<(Seq<char>, V)>) -> Map<Seq<char>, V>
    decreases pairs.len(),
{
    if pairs.len() == 0 {
        Map::empty()
    } else {
        build(pairs.drop_last()).insert(pairs.last().0, pairs.last().1)
    }
}

/// No sequence of `pairs` is a prefix of another one of them (nor equal to it).
pub open spec fn prefix_free<V>(pairs: Seq<(Seq<char>, V)>) -> bool {
    forall|i: int, j: int|
        0 <= i < pairs.len() && 0 <= j < pairs.len() && i != j ==> !is_prefix(
            #[trigger] pairs[i].0,
            #[trigger] pairs[j].0,
        )
}

proof fn lemma_build_keys<V>(pairs: Seq<(Seq<char>, V)>)
    ensures
        forall|k: Seq<char>| #[trigger]
            build(pairs).contains_key(k) <==> exists|i: int|
                0 <= i < pairs.len() && pairs[i].0 == k,
    decreases pairs.len(),
{
    if pairs.len() > 0 {
        let front = pairs.drop_last();
        lemma_build_keys(front);
        assert forall|k: Seq<char>| #[trigger]
            build(pairs).contains_key(k) <==> exists|i: int|
                0 <= i < pairs.len() && pairs[i].0 == k by {
            if build(pairs).contains_key(k) && k != pairs.last().0 {
                assert(build(front).contains_key(k));
                let i = choose|i: int| 0 <= i < front.len() && front[i].0 == k;
                assert(front[i] == pairs[i]);
            }
            if exists|i: int| 0 <= i < pairs.len() && pairs[i].0 == k {
                let i = choose|i: int| 0 <= i < pairs.len() && pairs[i].0 == k;
                if i < pairs.len() - 1 {
                    assert(front[i] == pairs[i]);
                    assert(build(front).contains_key(k));
                }
            }
        }
    }
}

/// Inserting prefix-free sequences one after another never meets a conflict,
/// and afterwards each sequence is bound to the value inserted with it, so a
/// lookup of it answers that value.
pub proof fn lemma_round_trip<V>(pairs: Seq<(Seq<char>, V)>)
    requires
        prefix_free(pairs),
    ensures
        forall|n: int|
            0 <= n < pairs.len() ==> prefix_conflict(build(#[trigger] pairs.take(n)), pairs[n].0)
                is None,
        forall|i: int|
            0 <= i < pairs.len() ==> build(pairs).contains_key(#[trigger] pairs[i].0)
                && build(pairs)[pairs[i].0] == pairs[i].1,
        forall|i: int, r: SearchResult<V>|
            0 <= i < pairs.len() && #[trigger] r.answers(build(pairs), pairs[i].0) ==> (r matches SearchResult::Value(a) && *a == pairs[i].1),
    decreases pairs.len(),
{
    if pairs.len() > 0 {
        let front = pairs.drop_last();
        assert forall|i: int, j: int|
            0 <= i < front.len() && 0 <= j < front.len() && i != j implies !is_prefix(
            #[trigger] front[i].0,
            #[trigger] front[j].0,
        ) by {
            assert(front[i] == pairs[i] && front[j] == pairs[j]);
        }
        lemma_round_trip(front);
        let last = pairs.len() - 1;
        assert forall|n: int|
            0 <= n < pairs.len() implies prefix_conflict(build(#[trigger] pairs.take(n)), pairs[n].0)
            is None by {
            let m = build(pairs.take(n));
            let k = pairs[n].0;
            if n < last {
                assert(pairs.take(n) == front.take(n));
                assert(front[n] == pairs[n]);
            } else {
                assert(pairs.take(n) == front);
                lemma_build_keys(front);
                if exists|j: int| 0 <= j < k.len() && #[trigger] m.contains_key(k.take(j)) {
                    let j = choose|j: int| 0 <= j < k.len() && #[trigger] m.contains_key(k.take(j));
                    let i = choose|i: int| 0 <= i < front.len() && front[i].0 == k.take(j);
                    assert(pairs[i].0 == k.take(j));
                    assert(is_prefix(pairs[i].0, pairs[n].0));
                }
                if exists|k2: Seq<char>| #[trigger] m.contains_key(k2) && strict_prefix(k, k2) {
                    let k2 = choose|k2: Seq<char>| #[trigger] m.contains_key(k2) && strict_prefix(k, k2);
                    let i = choose|i: int| 0 <= i < front.len() && front[i].0 == k2;
                    assert(pairs[i].0 == k2);
                    assert(is_prefix(pairs[n].0, pairs[i].0));
                }
            }
        }
        assert forall|i: int|
            0 <= i < pairs.len() implies build(pairs).contains_key(#[trigger] pairs[i].0)
            && build(pairs)[pairs[i].0] == pairs[i].1 by {
            if i < last {
                assert(front[i] == pairs[i]);
                assert(pairs[i].0 != pairs[last].0) by {
                    if pairs[i].0 == pairs[last].0 {
                        assert(pairs[i].0.take(pairs[i].0.len() as int) == pairs[i].0);
                        assert(is_prefix(pairs[i].0, pairs[last].0));
                    }
                }
            }
        }
        assert forall|i: int, r: SearchResult<V>|
            0 <= i < pairs.len() && #[trigger] r.answers(build(pairs), pairs[i].0) implies (r matches SearchResult::Value(a) && *a == pairs[i].1) by {
            let k = pairs[i].0;
            assert(k.take(k.len() as int) == k);
            assert(build(pairs).contains_key(k));
        }
    }
}

/// A sequence and a strict extension of it never both stand in a tree: with
/// the shorter one stored, the longer is always refused as extending it; with
/// the longer one stored, the shorter is always refused, and where the longer
/// one could be added in the first place, refused as a prefix of it.
pub proof fn lemma_prefix_exclusive<V>(m: Map<Seq<char>, V>, a: Seq<char>, b: Seq<char>, va: V, vb: V)
    requires
        strict_prefix(a, b),
    ensures
        prefix_conflict(m.insert(a, va), b) == Some(PrefixConflict::NewIsExtension),
        prefix_conflict(m.insert(b, vb), a) is Some,
        prefix_conflict(m, b) is None ==> prefix_conflict(m.insert(b, vb), a) == Some(
            PrefixConflict::ExistingIsExtension,
        ),
{
    assert(m.insert(a, va).contains_key(b.take(a.len() as int)));
    let m2 = m.insert(b, vb);
    assert(m2.contains_key(b) && strict_prefix(a, b));
    if prefix_conflict(m, b) is None {
        if exists|j: int| 0 <= j < a.len() && #[trigger] m2.contains_key(a.take(j)) {
            let j = choose|j: int| 0 <= j < a.len() && #[trigger] m2.contains_key(a.take(j));
            assert(a.take(j) == b.take(j));
            assert(m.contains_key(b.take(j)));
        }
    }
}

/// Removing a sequence that is not stored leaves the bindings as they were,
/// and removing one twice leaves what removing it once does.
pub proof fn lemma_remove_idempotent<V>(m: Map<Seq<char>, V>, k: Seq<char>)
    ensures
        !m.contains_key(k) ==> m.remove(k) == m,
        m.remove(k).remove(k) == m.remove(k),
{
    assert(m.remove(k).remove(k) == m.remove(k));
    if !m.contains_key(k) {
        assert(m.remove(k) == m);
    }
}

proof fn lemma_ascending_unique(s: Seq<char>, t: Seq<char>)
    requires
        ascending(s),
        ascending(t),
        forall|c: char| s.contains(c) <==> t.contains(c),
    ensures
        s == t,
    decreases s.len(),
{
    if s.len() == 0 {
        if t.len() > 0 {
            assert(t.contains(t[0]));
        }
    } else {
        assert(s.contains(s[0]));
        let i = choose|i: int| 0 <= i < t.len() && t[i] == s[0];
        assert(t.contains(t[0]));
        let j = choose|j: int| 0 <= j < s.len() && s[j] == t[0];
        if i > 0 {
            assert(t[0] < t[i]);
            if j > 0 {
                assert(s[0] < s[j]);
            }
        }
        assert(s[0] == t[0]);
        let s2 = s.drop_first();
        let t2 = t.drop_first();
        assert forall|c: char| s2.contains(c) <==> t2.contains(c) by {
            if s2.contains(c) {
                let k = choose|k: int| 0 <= k < s2.len() && s2[k] == c;
                assert(s[0] < s[k + 1]);
                assert(t.contains(c));
                let l = choose|l: int| 0 <= l < t.len() && t[l] == c;
                assert(l != 0);
                assert(t2[l - 1] == c);
            }
            if t2.contains(c) {
                let k = choose|k: int| 0 <= k < t2.len() && t2[k] == c;
                assert(t[0] < t[k + 1]);
                assert(s.contains(c));
                let l = choose|l: int| 0 <= l < s.len() && s[l] == c;
                assert(l != 0);
                assert(s2[l - 1] == c);
            }
        }
        lemma_ascending_unique(s2, t2);
        assert(s == seq![s[0]] + s2);
        assert(t == seq![t[0]] + t2);
    }
}

/// A lookup that stops at a branch lists the continuing symbols in ascending
/// order, and that list depends on the bindings alone, not on the order in
/// which they were inserted.
pub proof fn lemma_children_determined<V>(
    m: Map<Seq<char>, V>,
    k: Seq<char>,
    r1: SearchResult<V>,
    r2: SearchResult<V>,
)
    requires
        r1.answers(m, k),
        r2.answers(m, k),
        r1 is Children,
    ensures
        r2 is Children,
        ascending(r1->Children_0@),
        r1->Children_0@ == r2->Children_0@,
{
    let k2 = choose|k2: Seq<char>| #[trigger] m.contains_key(k2) && strict_prefix(k, k2);
    assert(is_prefix(k, k2));
    if r2 is Children {
        let s = r1->Children_0@;
        let t = r2->Children_0@;
        assert forall|c: char| s.contains(c) <==> t.contains(c) by {
            assert(s.contains(c) <==> continuations(m, k).contains(c));
            assert(t.contains(c) <==> continuations(m, k).contains(c));
        }
        lemma_ascending_unique(s, t);
    } else if r2 is Value {
    }
}

} // verus!
