use std::sync::Arc;
use vstd::prelude::*;
use im::Vector;
use crate::chars::{key_to_vec, pop_symbol, symbols};

verus! {

/// A persistent prefix tree from symbol sequences to values.
pub enum ChainTrie<V> {
    Empty,
    NonEmpty(Node<V>),
}

/// A node of the tree: either a bound value, or a branch whose entries are kept
/// in strictly ascending order of their symbol. Subtrees and values are held
/// behind `Arc`, so that an updated tree shares what it did not touch.
pub enum Node<V> {
    SubTree(Vec<(char, Arc<Node<V>>)>),
    Value(Arc<V>),
}

/// The three outcomes of a lookup.
pub enum SearchResult<V> {
    /// The sequence is stored; this is its value.
    Value(Arc<V>),
    /// The sequence leads to a branch; these are the symbols that continue it,
    /// in ascending order.
    Children(Vec<char>),
    /// The sequence neither is stored nor continues to a stored one.
    NoMatch,
}

/// Why an insertion was refused.
#[derive(Clone, Copy, PartialEq, Eq, Structural, Debug)]
pub enum PrefixConflict {
    /// The new sequence is a strict prefix of a stored one.
    ExistingIsExtension,
    /// A stored sequence is a strict prefix of the new one.
    NewIsExtension,
}

impl PrefixConflict {
    /// A sentence that describes the conflict.
    pub fn message(&self) -> (r: &'static str)
        ensures
            r@ == conflict_message(*self)@,
    {
        match self {
            PrefixConflict::ExistingIsExtension => "Attempting to add a prefix of a command chain which already exists in the mapping",
            PrefixConflict::NewIsExtension => "Attempting to add a command chain whose prefix already exists in the mapping",
        }
    }
}

/// The sentence that describes each conflict.
pub open spec fn conflict_message(e: PrefixConflict) -> &'static str {
    match e {
        PrefixConflict::ExistingIsExtension => "Attempting to add a prefix of a command chain which already exists in the mapping",
        PrefixConflict::NewIsExtension => "Attempting to add a command chain whose prefix already exists in the mapping",
    }
}

/// The entries of a branch are ordered by strictly ascending symbol.
pub open spec fn keys_increasing<V>(s: Seq<(char, Arc<Node<V>>)>) -> bool {
    forall|i: int, j: int| 0 <= i < j < s.len() ==> s[i].0 < s[j].0
}

/// The subtree that a branch's entries hold under symbol `c`, if any.
pub open spec fn child<V>(s: Seq<(char, Arc<Node<V>>)>, c: char) -> Option<Node<V>> {
    if exists|i: int| 0 <= i < s.len() && s[i].0 == c {
        let i = choose|i: int| 0 <= i < s.len() && s[i].0 == c;
        Some(*s[i].1)
    } else {
        None
    }
}

/// The symbols of a branch's entries, in order.
pub open spec fn entry_symbols<V>(s: Seq<(char, Arc<Node<V>>)>) -> Seq<char> {
    s.map_values(|e: (char, Arc<Node<V>>)| e.0)
}

/// Is `p` a prefix of `k` (possibly `k` itself)?
pub open spec fn is_prefix(p: Seq<char>, k: Seq<char>) -> bool {
    p.len() <= k.len() && k.take(p.len() as int) == p
}

/// Is `p` a strict prefix of `k`?
pub open spec fn strict_prefix(p: Seq<char>, k: Seq<char>) -> bool {
    p.len() < k.len() && k.take(p.len() as int) == p
}

/// Why `k` cannot be added to the bindings `m`, if it cannot.
pub open spec fn prefix_conflict<V>(m: Map<Seq<char>, V>, k: Seq<char>) -> Option<
    PrefixConflict,
> {
    if exists|j: int| 0 <= j < k.len() && #[trigger] m.contains_key(k.take(j)) {
        Some(PrefixConflict::NewIsExtension)
    } else if exists|k2: Seq<char>| #[trigger] m.contains_key(k2) && strict_prefix(k, k2) {
        Some(PrefixConflict::ExistingIsExtension)
    } else {
        None
    }
}

/// The symbols `c` such that `k` followed by `c` begins some sequence of `m`.
pub open spec fn continuations<V>(m: Map<Seq<char>, V>, k: Seq<char>) -> Set<char> {
    Set::new(
        |c: char| exists|k2: Seq<char>| #[trigger] m.contains_key(k2) && is_prefix(k.push(c), k2),
    )
}

/// The symbols are in strictly ascending order.
pub open spec fn ascending(s: Seq<char>) -> bool {
    forall|i: int, j: int| 0 <= i < j < s.len() ==> s[i] < s[j]
}

impl<V> SearchResult<V> {
    /// This is the outcome of looking up `k` among the bindings `m`.
    pub open spec fn answers(self, m: Map<Seq<char>, V>, k: Seq<char>) -> bool {
        match self {
            SearchResult::Value(v) => m.contains_key(k) && *v == m[k],
            SearchResult::Children(cs) => {
                &&& !m.contains_key(k)
                &&& exists|k2: Seq<char>| #[trigger] m.contains_key(k2) && strict_prefix(k, k2)
                &&& ascending(cs@)
                &&& forall|c: char| cs@.contains(c) <==> #[trigger] continuations(m, k).contains(c)
            },
            SearchResult::NoMatch => !exists|k2: Seq<char>|
                #[trigger] m.contains_key(k2) && is_prefix(k, k2),
        }
    }
}

impl<V> Node<V> {
    /// The node reached from this one by following the symbols of `k`.
    pub open spec fn at(self, k: Seq<char>) -> Option<Node<V>>
        decreases k.len(),
    {
        if k.len() == 0 {
            Some(self)
        } else {
            match self {
                Node::Value(_) => None,
                Node::SubTree(ch) => match child(ch@, k[0]) {
                    Some(n) => n.at(k.drop_first()),
                    None => None,
                },
            }
        }
    }

    /// The value bound to `k` below this node, if any.
    pub open spec fn get(self, k: Seq<char>) -> Option<V> {
        match self.at(k) {
            Some(Node::Value(v)) => Some(*v),
            _ => None,
        }
    }

    /// Why `k` cannot be bound below this node, if it cannot: a stored
    /// sequence is a strict prefix of `k`, or `k` leads to a branch.
    pub open spec fn conflict(self, k: Seq<char>) -> Option<PrefixConflict> {
        if exists|j: int| 0 <= j < k.len() && #[trigger] self.at(k.take(j)) matches Some(
            Node::Value(_),
        ) {
            Some(PrefixConflict::NewIsExtension)
        } else if self.at(k) matches Some(Node::SubTree(_)) {
            Some(PrefixConflict::ExistingIsExtension)
        } else {
            None
        }
    }

    /// Every branch below this node, itself included, is non-empty and ordered.
    pub open spec fn wf(self) -> bool {
        forall|k: Seq<char>| #[trigger]
            self.at(k) matches Some(Node::SubTree(ch)) ==> ch@.len() > 0 && keys_increasing(ch@)
    }
}

impl<V> ChainTrie<V> {
    /// The node reached from the root by following the symbols of `k`.
    pub open spec fn at(self, k: Seq<char>) -> Option<Node<V>> {
        match self {
            ChainTrie::Empty => None,
            ChainTrie::NonEmpty(n) => n.at(k),
        }
    }

    /// The value bound to `k`, if `k` is stored.
    pub open spec fn get(self, k: Seq<char>) -> Option<V> {
        match self {
            ChainTrie::Empty => None,
            ChainTrie::NonEmpty(n) => n.get(k),
        }
    }

    /// Why `k` cannot be bound in this tree, if it cannot.
    pub open spec fn conflict(self, k: Seq<char>) -> Option<PrefixConflict> {
        match self {
            ChainTrie::Empty => None,
            ChainTrie::NonEmpty(n) => n.conflict(k),
        }
    }

    /// The stored sequences and their values.
    pub open spec fn view(self) -> Map<Seq<char>, V> {
        Map::new(|k: Seq<char>| self.get(k) is Some, |k: Seq<char>| self.get(k)->0)
    }

    /// No branch of the tree is empty, and each is ordered.
    pub open spec fn wf(self) -> bool {
        match self {
            ChainTrie::Empty => true,
            ChainTrie::NonEmpty(n) => n.wf(),
        }
    }
}

impl<V> SearchResult<V> {
    /// This is the outcome of a lookup that reached `found`.
    pub open spec fn describes(self, found: Option<Node<V>>) -> bool {
        match found {
            Some(Node::Value(v)) => self matches SearchResult::Value(w) && *w == *v,
            Some(Node::SubTree(ch)) => self matches SearchResult::Children(cs) && cs@
                == entry_symbols(ch@),
            None => self is NoMatch,
        }
    }
}

impl<V> Node<V> {
    /// The symbols that lead from this node to its leftmost value.
    pub open spec fn first_leaf(self) -> Seq<char>
        decreases self,
    {
        match self {
            Node::Value(_) => Seq::empty(),
            Node::SubTree(ch) => if ch@.len() > 0 {
                seq![ch@[0].0] + (*ch@[0].1).first_leaf()
            } else {
                Seq::empty()
            },
        }
    }
}

pub open spec fn put_seq<V>(put: Option<(char, Arc<Node<V>>)>) -> Seq<(char, Arc<Node<V>>)> {
    match put {
        Some(e) => seq![e],
        None => Seq::empty(),
    }
}

// Lemmas on the tree model.

/// With ordered entries, the entry that holds a symbol is the one `child` names.
proof fn lemma_child_index<V>(s: Seq<(char, Arc<Node<V>>)>, i: int)
    requires
        keys_increasing(s),
        0 <= i < s.len(),
    ensures
        child(s, s[i].0) == Some(*s[i].1),
{
    let c = s[i].0;
    let j = choose|j: int| 0 <= j < s.len() && s[j].0 == c;
    assert(0 <= j < s.len() && s[j].0 == c);
    if j < i {
        assert(s[j].0 < s[i].0);
    } else if i < j {
        assert(s[i].0 < s[j].0);
    }
}

/// A subtree of a well-formed node is well formed, and the paths through it
/// are those of the node that start with its symbol.
proof fn lemma_child_wf<V>(n: Node<V>, c: char, m: Node<V>)
    requires
        n.wf(),
        n matches Node::SubTree(ch) && child(ch@, c) == Some(m),
    ensures
        m.wf(),
        forall|p: Seq<char>| #[trigger] n.at(seq![c] + p) == m.at(p),
{
    assert forall|p: Seq<char>| #[trigger] n.at(seq![c] + p) == m.at(p) by {
        let q = seq![c] + p;
        assert(q[0] == c);
        assert(q.drop_first() == p);
    }
    assert forall|p: Seq<char>|
        (#[trigger] m.at(p) matches Some(Node::SubTree(ch)) ==> ch@.len() > 0 && keys_increasing(
            ch@,
        )) by {
        assert(n.at(seq![c] + p) == m.at(p));
    }
}


/// Two entry lists that hold the same entries for symbol `d` give the same subtree for it.
proof fn lemma_child_same<V>(s: Seq<(char, Arc<Node<V>>)>, t: Seq<(char, Arc<Node<V>>)>, d: char)
    requires
        keys_increasing(s),
        keys_increasing(t),
        forall|i: int| 0 <= i < s.len() && s[i].0 == d ==> exists|j: int|
            0 <= j < t.len() && t[j] == s[i],
        forall|j: int| 0 <= j < t.len() && t[j].0 == d ==> exists|i: int|
            0 <= i < s.len() && s[i] == t[j],
    ensures
        child(s, d) == child(t, d),
{
    if exists|i: int| 0 <= i < s.len() && s[i].0 == d {
        let i = choose|i: int| 0 <= i < s.len() && s[i].0 == d;
        let j = choose|j: int| 0 <= j < t.len() && t[j] == s[i];
        lemma_child_index(s, i);
        lemma_child_index(t, j);
    } else if exists|j: int| 0 <= j < t.len() && t[j].0 == d {
        let j = choose|j: int| 0 <= j < t.len() && t[j].0 == d;
        let i = choose|i: int| 0 <= i < s.len() && s[i] == t[j];
        assert(s[i].0 == d);
    }
}

/// Following `c` and then `q` from a node.
proof fn lemma_at_cons<V>(n: Node<V>, c: char, q: Seq<char>)
    ensures
        n.at(seq![c] + q) == match n {
            Node::Value(_) => None,
            Node::SubTree(ch) => match child(ch@, c) {
                Some(m) => m.at(q),
                None => None,
            },
        },
{
    let k = seq![c] + q;
    assert(k[0] == c);
    assert(k.drop_first() == q);
}

/// Every non-empty sequence is its first symbol followed by the rest.
proof fn lemma_cons_split(p: Seq<char>)
    requires
        p.len() > 0,
    ensures
        p == seq![p[0]] + p.drop_first(),
{
    assert(p == seq![p[0]] + p.drop_first());
}

/// Putting an entry for `c` into an ordered entry list, at its place, keeps
/// the order, binds `c` to the new subtree and leaves every other symbol as it was.
proof fn lemma_splice_child<V>(
    s: Seq<(char, Arc<Node<V>>)>,
    t: Seq<(char, Arc<Node<V>>)>,
    pos: int,
    drop: int,
    c: char,
    a: Arc<Node<V>>,
)
    requires
        keys_increasing(s),
        0 <= pos,
        pos + drop <= s.len(),
        t == s.take(pos) + seq![(c, a)] + s.skip(pos + drop),
        (drop == 1 && s[pos].0 == c) || (drop == 0 && (forall|j: int| 0 <= j < pos ==> s[j].0 < c)
            && (forall|j: int| pos <= j < s.len() ==> s[j].0 > c)),
    ensures
        keys_increasing(t),
        t.len() > 0,
        child(t, c) == Some(*a),
        forall|d: char| d != c ==> #[trigger] child(t, d) == child(s, d),
{
    assert(t.len() == s.len() + 1 - drop);
    assert forall|j: int| 0 <= j < t.len() implies #[trigger] t[j] == if j < pos {
        s[j]
    } else if j == pos {
        (c, a)
    } else {
        s[j - 1 + drop]
    } by {}
    assert forall|i: int, j: int| 0 <= i < j < t.len() implies t[i].0 < t[j].0 by {
        if drop == 1 {
            if i < pos && j > pos {
                assert(s[i].0 < s[pos].0);
                assert(s[pos].0 < s[j].0);
            } else if i < pos && j == pos {
                assert(s[i].0 < s[pos].0);
            } else if i == pos {
                assert(s[pos].0 < s[j].0);
            } else if i > pos {
                assert(s[i].0 < s[j].0);
            }
        } else {
            if i > pos {
                assert(s[i - 1].0 < s[j - 1].0);
            }
        }
    }
    lemma_child_index(t, pos);
    assert forall|d: char| d != c implies #[trigger] child(t, d) == child(s, d) by {
        assert forall|i: int| 0 <= i < s.len() && s[i].0 == d implies exists|j: int|
            0 <= j < t.len() && t[j] == s[i] by {
            if i < pos {
                assert(t[i] == s[i]);
            } else {
                assert(i != pos || drop == 0);
                assert(t[i + 1 - drop] == s[i]);
            }
        }
        assert forall|j: int| 0 <= j < t.len() && t[j].0 == d implies exists|i: int|
            0 <= i < s.len() && s[i] == t[j] by {
            if j < pos {
                assert(s[j] == t[j]);
            } else {
                assert(j != pos);
                assert(s[j - 1 + drop] == t[j]);
            }
        }
        lemma_child_same(s, t, d);
    }
}

/// A branch rebuilt with one subtree replaced by a well-formed one is well formed,
/// and its paths are the old ones except below the replaced symbol.
proof fn lemma_rebuilt<V>(n: Node<V>, n2: Node<V>, c: char, m: Node<V>)
    requires
        n.wf(),
        n is SubTree,
        n2 matches Node::SubTree(ch2) && ch2@.len() > 0 && keys_increasing(ch2@) && child(
            ch2@,
            c,
        ) == Some(m),
        m.wf(),
        forall|d: char|
            d != c ==> #[trigger] child(n2->SubTree_0@, d) == child(n->SubTree_0@, d),
    ensures
        n2.wf(),
        forall|q: Seq<char>| #[trigger] n2.at(seq![c] + q) == m.at(q),
        forall|d: char, q: Seq<char>| d != c ==> #[trigger] n2.at(seq![d] + q) == n.at(seq![d] + q),
{
    assert forall|q: Seq<char>| #[trigger] n2.at(seq![c] + q) == m.at(q) by {
        lemma_at_cons(n2, c, q);
    }
    assert forall|d: char, q: Seq<char>| d != c implies #[trigger] n2.at(seq![d] + q) == n.at(
        seq![d] + q,
    ) by {
        lemma_at_cons(n2, d, q);
        lemma_at_cons(n, d, q);
    }
    assert forall|p: Seq<char>|
        (#[trigger] n2.at(p) matches Some(Node::SubTree(ch)) ==> ch@.len() > 0 && keys_increasing(
            ch@,
        )) by {
        if p.len() > 0 {
            lemma_cons_split(p);
            let d = p[0];
            let q = p.drop_first();
            if d == c {
                assert(n2.at(seq![c] + q) == m.at(q));
            } else {
                assert(n2.at(seq![d] + q) == n.at(seq![d] + q));
            }
        }
    }
}

/// The conflict for a sequence that starts with `c`, at a branch, is the
/// conflict for the rest at the subtree under `c`; none if there is no such subtree.
proof fn lemma_conflict_step<V>(n: Node<V>, c: char, q: Seq<char>)
    requires
        n is SubTree,
    ensures
        n.conflict(seq![c] + q) == match child(n->SubTree_0@, c) {
            Some(m) => m.conflict(q),
            None => None,
        },
{
    let k = seq![c] + q;
    let ch = n->SubTree_0;
    assert(k.take(0) == Seq::<char>::empty());
    assert(n.at(k.take(0)) == Some(n));
    assert forall|j: int| 0 <= j < q.len() implies #[trigger] n.at(k.take(j + 1)) == match child(
        ch@,
        c,
    ) {
        Some(m) => m.at(q.take(j)),
        None => None,
    } by {
        assert(k.take(j + 1) == seq![c] + q.take(j));
        lemma_at_cons(n, c, q.take(j));
    }
    lemma_at_cons(n, c, q);
    match child(ch@, c) {
        Some(m) => {
            if exists|j: int| 0 <= j < k.len() && #[trigger] n.at(k.take(j)) matches Some(
                Node::Value(_),
            ) {
                let j = choose|j: int| 0 <= j < k.len() && #[trigger] n.at(k.take(j)) matches Some(
                    Node::Value(_),
                );
                assert(j > 0);
                assert(n.at(k.take((j - 1) + 1)) == m.at(q.take(j - 1)));
            }
            if exists|j: int| 0 <= j < q.len() && #[trigger] m.at(q.take(j)) matches Some(
                Node::Value(_),
            ) {
                let j = choose|j: int| 0 <= j < q.len() && #[trigger] m.at(q.take(j)) matches Some(
                    Node::Value(_),
                );
                assert(n.at(k.take(j + 1)) == m.at(q.take(j)));
            }
        },
        None => {
            if exists|j: int| 0 <= j < k.len() && #[trigger] n.at(k.take(j)) matches Some(
                Node::Value(_),
            ) {
                let j = choose|j: int| 0 <= j < k.len() && #[trigger] n.at(k.take(j)) matches Some(
                    Node::Value(_),
                );
                assert(j > 0);
                assert(n.at(k.take((j - 1) + 1)) is None);
            }
        },
    }
}

/// Taking the entry for `c` out of an ordered entry list keeps the order,
/// leaves no subtree under `c` and every other symbol as it was.
proof fn lemma_splice_out<V>(s: Seq<(char, Arc<Node<V>>)>, t: Seq<(char, Arc<Node<V>>)>, pos: int)
    requires
        keys_increasing(s),
        0 <= pos < s.len(),
        t == s.take(pos) + s.skip(pos + 1),
    ensures
        keys_increasing(t),
        child(t, s[pos].0) is None,
        forall|d: char| d != s[pos].0 ==> #[trigger] child(t, d) == child(s, d),
{
    let c = s[pos].0;
    assert(t.len() == s.len() - 1);
    assert forall|j: int| 0 <= j < t.len() implies #[trigger] t[j] == if j < pos {
        s[j]
    } else {
        s[j + 1]
    } by {}
    assert forall|i: int, j: int| 0 <= i < j < t.len() implies t[i].0 < t[j].0 by {
        if i < pos && j >= pos {
            assert(s[i].0 < s[j + 1].0);
        } else if i >= pos {
            assert(s[i + 1].0 < s[j + 1].0);
        }
    }
    assert forall|j: int| 0 <= j < t.len() implies t[j].0 != c by {
        if j < pos {
            assert(s[j].0 < s[pos].0);
        } else {
            assert(s[pos].0 < s[j + 1].0);
        }
    }
    assert forall|d: char| d != c implies #[trigger] child(t, d) == child(s, d) by {
        assert forall|i: int| 0 <= i < s.len() && s[i].0 == d implies exists|j: int|
            0 <= j < t.len() && t[j] == s[i] by {
            if i < pos {
                assert(t[i] == s[i]);
            } else {
                assert(t[i - 1] == s[i]);
            }
        }
        assert forall|j: int| 0 <= j < t.len() && t[j].0 == d implies exists|i: int|
            0 <= i < s.len() && s[i] == t[j] by {
            if j < pos {
                assert(s[j] == t[j]);
            } else {
                assert(s[j + 1] == t[j]);
            }
        }
        lemma_child_same(s, t, d);
    }
}

/// A branch rebuilt without its subtree under `c` is well formed if it is not
/// empty, and its paths are the old ones except those through `c`.
proof fn lemma_rebuilt_without<V>(n: Node<V>, n2: Node<V>, c: char)
    requires
        n.wf(),
        n is SubTree,
        n2 matches Node::SubTree(ch2) && ch2@.len() > 0 && keys_increasing(ch2@) && child(
            ch2@,
            c,
        ) is None,
        forall|d: char|
            d != c ==> #[trigger] child(n2->SubTree_0@, d) == child(n->SubTree_0@, d),
    ensures
        n2.wf(),
        forall|q: Seq<char>| #[trigger] n2.at(seq![c] + q) is None,
        forall|d: char, q: Seq<char>| d != c ==> #[trigger] n2.at(seq![d] + q) == n.at(seq![d] + q),
{
    assert forall|q: Seq<char>| #[trigger] n2.at(seq![c] + q) is None by {
        lemma_at_cons(n2, c, q);
    }
    assert forall|d: char, q: Seq<char>| d != c implies #[trigger] n2.at(seq![d] + q) == n.at(
        seq![d] + q,
    ) by {
        lemma_at_cons(n2, d, q);
        lemma_at_cons(n, d, q);
    }
    assert forall|p: Seq<char>|
        (#[trigger] n2.at(p) matches Some(Node::SubTree(ch)) ==> ch@.len() > 0 && keys_increasing(
            ch@,
        )) by {
        if p.len() > 0 {
            lemma_cons_split(p);
            let d = p[0];
            let q = p.drop_first();
            if d == c {
                assert(n2.at(seq![c] + q) is None);
            } else {
                assert(n2.at(seq![d] + q) == n.at(seq![d] + q));
            }
        }
    }
}

/// Two nodes of the same kind with the same value or the same entries have the
/// same paths below them, the same bindings and the same well-formedness.
proof fn lemma_same_node<V>(n: Node<V>, n2: Node<V>)
    requires
        match (n, n2) {
            (Node::Value(a), Node::Value(b)) => a == b,
            (Node::SubTree(a), Node::SubTree(b)) => a@ == b@,
            _ => false,
        },
    ensures
        n.wf() ==> n2.wf(),
        forall|p: Seq<char>| #[trigger] n2.get(p) == n.get(p),
{
    assert forall|p: Seq<char>| p.len() > 0 implies #[trigger] n2.at(p) == n.at(p) by {
        lemma_cons_split(p);
        lemma_at_cons(n, p[0], p.drop_first());
        lemma_at_cons(n2, p[0], p.drop_first());
    }
    assert forall|p: Seq<char>| #[trigger] n2.get(p) == n.get(p) by {
        if p.len() > 0 {
            assert(n2.at(p) == n.at(p));
        }
    }
    if n.wf() {
        assert forall|p: Seq<char>|
            (#[trigger] n2.at(p) matches Some(Node::SubTree(ch)) ==> ch@.len() > 0
                && keys_increasing(ch@)) by {
            if p.len() > 0 {
                assert(n2.at(p) == n.at(p));
            } else {
                assert(n.at(p) == Some(n));
            }
        }
    }
}

/// Following `k` and then `r` is following `k + r`.
proof fn lemma_at_concat<V>(n: Node<V>, k: Seq<char>, r: Seq<char>)
    ensures
        n.at(k + r) == match n.at(k) {
            Some(m) => m.at(r),
            None => None,
        },
    decreases k.len(),
{
    if k.len() == 0 {
        assert(k + r == r);
    } else {
        lemma_cons_split(k);
        let q = k.drop_first();
        assert(k + r == seq![k[0]] + (q + r));
        lemma_at_cons(n, k[0], q + r);
        lemma_at_cons(n, k[0], q);
        match n {
            Node::SubTree(ch) => match child(ch@, k[0]) {
                Some(m) => lemma_at_concat(m, q, r),
                None => {},
            },
            Node::Value(_) => {},
        }
    }
}

/// In a well-formed node, the leftmost path ends at a value.
proof fn lemma_first_leaf<V>(n: Node<V>)
    requires
        n.wf(),
    ensures
        n.at(n.first_leaf()) matches Some(Node::Value(_)),
        n is SubTree ==> n.first_leaf().len() > 0,
    decreases n,
{
    match n {
        Node::Value(_) => {
            assert(n.at(Seq::empty()) == Some(n));
        },
        Node::SubTree(ch) => {
            assert(n.at(Seq::empty()) == Some(n));
            let m = *ch@[0].1;
            lemma_child_index(ch@, 0);
            lemma_child_wf(n, ch@[0].0, m);
            lemma_first_leaf(m);
            assert(n.at(seq![ch@[0].0] + m.first_leaf()) == m.at(m.first_leaf()));
        },
    }
}

/// In a well-formed node, a path exists exactly when it leads to some stored
/// sequence, and it ends at a branch exactly when it is a strict prefix of one.
proof fn lemma_reach<V>(n: Node<V>, p: Seq<char>)
    requires
        n.wf(),
    ensures
        n.at(p) is Some <==> exists|k: Seq<char>| #[trigger] n.get(k) is Some && is_prefix(p, k),
        n.at(p) matches Some(Node::SubTree(_)) <==> exists|k: Seq<char>|
            #[trigger] n.get(k) is Some && strict_prefix(p, k),
{
    assert forall|k: Seq<char>| #[trigger] n.get(k) is Some && is_prefix(p, k) implies n.at(
        p,
    ) is Some && (strict_prefix(p, k) ==> n.at(p) matches Some(Node::SubTree(_))) by {
        let r = k.skip(p.len() as int);
        assert(p + r == k);
        lemma_at_concat(n, p, r);
        if strict_prefix(p, k) {
            assert(r.len() > 0);
            lemma_cons_split(r);
            let m = n.at(p)->0;
            lemma_at_cons(m, r[0], r.drop_first());
        }
    }
    if n.at(p) is Some {
        let m = n.at(p)->0;
        assert forall|q: Seq<char>|
            (#[trigger] m.at(q) matches Some(Node::SubTree(ch)) ==> ch@.len() > 0
                && keys_increasing(ch@)) by {
            lemma_at_concat(n, p, q);
        }
        lemma_first_leaf(m);
        let r = m.first_leaf();
        lemma_at_concat(n, p, r);
        let k = p + r;
        assert(k.take(p.len() as int) == p);
        assert(n.get(k) is Some && is_prefix(p, k));
        if m is SubTree {
            assert(strict_prefix(p, k));
        }
    }
}


/// At a branch reached by `k`, the entries' symbols are ascending and are
/// exactly the symbols that continue `k` toward a stored sequence.
proof fn lemma_children<V>(n: Node<V>, k: Seq<char>, ch: Vec<(char, Arc<Node<V>>)>)
    requires
        n.wf(),
        n.at(k) == Some(Node::SubTree(ch)),
    ensures
        ascending(entry_symbols(ch@)),
        forall|c: char|
            entry_symbols(ch@).contains(c) <==> #[trigger] continuations(
                ChainTrie::NonEmpty(n)@,
                k,
            ).contains(c),
{
    let t = ChainTrie::NonEmpty(n);
    let cs = entry_symbols(ch@);
    assert(keys_increasing(ch@));
    assert forall|i: int, j: int| 0 <= i < j < cs.len() implies cs[i] < cs[j] by {
        assert(ch@[i].0 < ch@[j].0);
    }
    assert forall|c: char| cs.contains(c) <==> #[trigger] continuations(t@, k).contains(c) by {
        lemma_at_concat(n, k, seq![c]);
        assert(k + seq![c] == k.push(c));
        lemma_at_cons(Node::SubTree(ch), c, Seq::empty());
        assert(seq![c] + Seq::<char>::empty() == seq![c]);
        lemma_reach(n, k.push(c));
        if cs.contains(c) {
            let i = choose|i: int| 0 <= i < cs.len() && cs[i] == c;
            lemma_child_index(ch@, i);
            let k2 = choose|k2: Seq<char>| #[trigger] n.get(k2) is Some && is_prefix(k.push(c), k2);
            assert(t@.contains_key(k2));
        }
        if continuations(t@, k).contains(c) {
            let k2 = choose|k2: Seq<char>| #[trigger] t@.contains_key(k2) && is_prefix(k.push(c), k2);
            assert(n.get(k2) is Some);
            let i = choose|i: int| 0 <= i < ch@.len() && ch@[i].0 == c;
            assert(cs[i] == c);
        }
    }
}

/// A well-formed tree has no bindings exactly when it is `Empty`.
proof fn lemma_empty_view<V>(t: ChainTrie<V>)
    requires
        t.wf(),
    ensures
        t is Empty <==> t@ == Map::<Seq<char>, V>::empty(),
{
    match t {
        ChainTrie::Empty => {
            assert(t@ == Map::<Seq<char>, V>::empty());
        },
        ChainTrie::NonEmpty(n) => {
            lemma_first_leaf(n);
            assert(t@.contains_key(n.first_leaf()));
        },
    }
}

/// The bindings of a node's tree are those of its view, and its conflicts
/// and lookups are those that the bindings determine.
proof fn lemma_node_view<V>(t: ChainTrie<V>, k: Seq<char>)
    requires
        t.wf(),
    ensures
        t.conflict(k) == prefix_conflict(t@, k),
        forall|r: SearchResult<V>| #[trigger] r.describes(t.at(k)) ==> r.answers(t@, k),
{
    match t {
        ChainTrie::Empty => {
            assert(forall|p: Seq<char>| !(#[trigger] t@.contains_key(p)));
        },
        ChainTrie::NonEmpty(n) => {
            assert forall|p: Seq<char>| #[trigger] t@.contains_key(p) == n.get(p) is Some by {}
            lemma_reach(n, k);
            if exists|j: int| 0 <= j < k.len() && #[trigger] n.at(k.take(j)) matches Some(
                Node::Value(_),
            ) {
                let j = choose|j: int| 0 <= j < k.len() && #[trigger] n.at(k.take(j)) matches Some(
                    Node::Value(_),
                );
                assert(t@.contains_key(k.take(j)));
            }
            if exists|k2: Seq<char>| #[trigger] t@.contains_key(k2) && strict_prefix(k, k2) {
                let k2 = choose|k2: Seq<char>| #[trigger] t@.contains_key(k2) && strict_prefix(k, k2);
                assert(n.get(k2) is Some);
            }
            if n.at(k) matches Some(Node::SubTree(_)) {
                let k2 = choose|k2: Seq<char>| #[trigger] n.get(k2) is Some && strict_prefix(k, k2);
                assert(t@.contains_key(k2));
            }
            if exists|j: int| 0 <= j < k.len() && #[trigger] t@.contains_key(k.take(j)) {
                let j = choose|j: int| 0 <= j < k.len() && #[trigger] t@.contains_key(k.take(j));
                assert(n.get(k.take(j)) is Some);
            }
            assert forall|r: SearchResult<V>| #[trigger] r.describes(t.at(k)) implies r.answers(
                t@,
                k,
            ) by {
                match n.at(k) {
                    Some(Node::Value(w)) => {
                        assert(t@.contains_key(k));
                    },
                    Some(Node::SubTree(ch)) => {
                        lemma_children(n, k, ch);
                        let k2 = choose|k2: Seq<char>| #[trigger] n.get(k2) is Some && strict_prefix(
                            k,
                            k2,
                        );
                        assert(t@.contains_key(k2));
                    },
                    None => {
                        if exists|k2: Seq<char>| #[trigger] t@.contains_key(k2) && is_prefix(k, k2) {
                            let k2 = choose|k2: Seq<char>| #[trigger] t@.contains_key(k2) && is_prefix(
                                k,
                                k2,
                            );
                            assert(n.get(k2) is Some);
                        }
                    },
                }
            }
        },
    }
}

/// The position of the entry for symbol `c`, if there is one.
fn find_entry<V>(ch: &Vec<(char, Arc<Node<V>>)>, c: char) -> (r: Option<usize>)
    requires
        keys_increasing(ch@),
    ensures
        match r {
            Some(i) => i < ch@.len() && ch@[i as int].0 == c && child(ch@, c) == Some(
                *ch@[i as int].1,
            ),
            None => child(ch@, c) is None,
        },
{
    let mut i: usize = 0;
    while i < ch.len()
        invariant
            i <= ch@.len(),
            keys_increasing(ch@),
            forall|j: int| 0 <= j < i ==> ch@[j].0 != c,
        decreases ch@.len() - i,
    {
        if ch[i].0 == c {
            proof {
                lemma_child_index(ch@, i as int);
            }
            return Some(i);
        }
        i += 1;
    }
    None
}

/// The symbols of a branch's entries, in order.
fn entry_keys<V>(ch: &Vec<(char, Arc<Node<V>>)>) -> (r: Vec<char>)
    ensures
        r@ == entry_symbols(ch@),
{
    let mut r: Vec<char> = Vec::new();
    let mut i: usize = 0;
    while i < ch.len()
        invariant
            i <= ch@.len(),
            r@ == entry_symbols(ch@).take(i as int),
        decreases ch@.len() - i,
    {
        r.push(ch[i].0);
        assert(entry_symbols(ch@).take(i as int + 1) == entry_symbols(ch@).take(i as int).push(
            ch@[i as int].0,
        ));
        i += 1;
    }
    assert(entry_symbols(ch@).take(i as int) == entry_symbols(ch@));
    r
}

/// A copy of `ch` in which `put`, if any, takes the place of the `drop`
/// entries from position `pos`. The subtrees are shared, not copied.
fn splice<V>(
    ch: &Vec<(char, Arc<Node<V>>)>,
    pos: usize,
    drop: usize,
    put: Option<(char, Arc<Node<V>>)>,
) -> (r: Vec<(char, Arc<Node<V>>)>)
    requires
        drop <= 1,
        pos + drop <= ch@.len(),
    ensures
        r@ == ch@.take(pos as int) + put_seq(put) + ch@.skip(pos + drop),
{
    let mut r: Vec<(char, Arc<Node<V>>)> = Vec::new();
    let mut i: usize = 0;
    while i < pos
        invariant
            i <= pos,
            pos + drop <= ch@.len(),
            r@ == ch@.take(i as int),
        decreases pos - i,
    {
        r.push((ch[i].0, ch[i].1.clone()));
        assert(ch@.take(i as int + 1) == ch@.take(i as int).push(ch@[i as int]));
        i += 1;
    }
    let ghost front = r@;
    let ghost mid = put_seq(put);
    match put {
        Some(e) => r.push(e),
        None => {},
    }
    assert(r@ == front + mid);
    let n: usize = ch.len();
    assert(pos + drop <= n);
    i = pos + drop;
    while i < ch.len()
        invariant
            pos + drop <= i <= ch@.len(),
            r@ == front + mid + ch@.subrange(pos + drop, i as int),
        decreases ch@.len() - i,
    {
        r.push((ch[i].0, ch[i].1.clone()));
        assert(ch@.subrange(pos + drop, i + 1) == ch@.subrange(pos + drop, i as int).push(
            ch@[i as int],
        ));
        i += 1;
    }
    assert(ch@.subrange(pos + drop, i as int) == ch@.skip(pos + drop));
    r
}

/// The position at which an entry for the absent symbol `c` keeps the order.
fn insertion_point<V>(ch: &Vec<(char, Arc<Node<V>>)>, c: char) -> (r: usize)
    requires
        keys_increasing(ch@),
        child(ch@, c) is None,
    ensures
        r <= ch@.len(),
        forall|j: int| 0 <= j < r ==> ch@[j].0 < c,
        forall|j: int| r <= j < ch@.len() ==> ch@[j].0 > c,
{
    let mut i: usize = 0;
    while i < ch.len() && ch[i].0 < c
        invariant
            i <= ch@.len(),
            keys_increasing(ch@),
            forall|j: int| 0 <= j < i ==> ch@[j].0 < c,
        decreases ch@.len() - i,
    {
        i += 1;
    }
    proof {
        assert forall|j: int| i <= j < ch@.len() implies ch@[j].0 > c by {
            assert(ch@[j].0 != c);
            if j > i {
                assert(ch@[i as int].0 < ch@[j].0);
            }
        }
    }
    i
}

impl<V> Node<V> {
    /// A node with the same value or the same entries as this one; the
    /// value and the subtrees are shared.
    fn share(&self) -> (r: Node<V>)
        ensures
            match (*self, r) {
                (Node::Value(a), Node::Value(b)) => a == b,
                (Node::SubTree(a), Node::SubTree(b)) => a@ == b@,
                _ => false,
            },
    {
        match self {
            Node::Value(value) => Node::Value(value.clone()),
            Node::SubTree(ord_map) => {
                let entries = splice(ord_map, 0, 0, None);
                assert(entries@ == ord_map@);
                Node::SubTree(entries)
            },
        }
    }

    /// This node without the binding of `key`; `None` where nothing would be left.
    fn rec_remove(&self, key: Vector<char>) -> (r: Option<Node<V>>)
        requires
            self.wf(),
        ensures
            match r {
                Some(n) => n.wf() && forall|p: Seq<char>| #[trigger]
                    n.get(p) == if p == symbols(key) {
                        None
                    } else {
                        self.get(p)
                    },
                None => forall|p: Seq<char>| p != symbols(key) ==> #[trigger] self.get(p) is None,
            },
        decreases symbols(key).len(),
    {
        let mut key = key;
        let ghost k = symbols(key);
        match (pop_symbol(&mut key), self) {
            (None, Node::Value(_)) => {
                proof {
                    assert forall|p: Seq<char>| p != k implies #[trigger] self.get(p) is None by {
                        if p.len() == 0 {
                            assert(p == k);
                        } else {
                            lemma_cons_split(p);
                            lemma_at_cons(*self, p[0], p.drop_first());
                        }
                    }
                }
                None
            },
            (None, Node::SubTree(_)) | (Some(_), Node::Value(_)) => {
                let r = self.share();
                proof {
                    lemma_same_node(*self, r);
                    if k.len() > 0 {
                        lemma_cons_split(k);
                        lemma_at_cons(*self, k[0], k.drop_first());
                    }
                }
                Some(r)
            },
            (Some(c), Node::SubTree(ord_map)) => {
                let ghost rest = symbols(key);
                proof {
                    lemma_cons_split(k);
                    lemma_at_cons(*self, c, rest);
                    assert(self.at(Seq::empty()) == Some(*self));
                }
                match find_entry(ord_map, c) {
                    None => {
                        let r = self.share();
                        proof {
                            lemma_same_node(*self, r);
                        }
                        Some(r)
                    },
                    Some(i) => {
                        let node: &Node<V> = &ord_map[i].1;
                        proof {
                            lemma_child_wf(*self, c, *node);
                        }
                        match node.rec_remove(key) {
                            Some(sub) => {
                                let ghost a = Arc::new(sub);
                                let entries = splice(ord_map, i, 1, Some((c, Arc::new(sub))));
                                let r = Node::SubTree(entries);
                                proof {
                                    lemma_splice_child(ord_map@, entries@, i as int, 1, c, a);
                                    lemma_rebuilt(*self, r, c, sub);
                                    assert forall|p: Seq<char>| #[trigger]
                                        r.get(p) == if p == k {
                                            None
                                        } else {
                                            self.get(p)
                                        } by {
                                        if p.len() > 0 {
                                            lemma_cons_split(p);
                                            let q = p.drop_first();
                                            lemma_at_cons(*self, p[0], q);
                                            if p[0] == c {
                                                assert(p == k <==> q == rest);
                                                assert(r.at(seq![c] + q) == sub.at(q));
                                                assert(r.get(p) == sub.get(q));
                                            } else {
                                                assert(r.at(seq![p[0]] + q) == self.at(
                                                    seq![p[0]] + q,
                                                ));
                                            }
                                        }
                                    }
                                }
                                Some(r)
                            },
                            None => {
                                let entries = splice(ord_map, i, 1, None);
                                proof {
                                    lemma_splice_out(ord_map@, entries@, i as int);
                                    assert forall|p: Seq<char>|
                                        p.len() > 0 && p != k && p[0] == c implies #[trigger]
                                        self.get(p) is None by {
                                        lemma_cons_split(p);
                                        let q = p.drop_first();
                                        lemma_at_cons(*self, c, q);
                                        assert(p == k <==> q == rest);
                                        assert(node.get(q) is None);
                                    }
                                }
                                if entries.len() == 0 {
                                    proof {
                                        assert(ord_map@.len() == 1);
                                        assert forall|p: Seq<char>| p != k implies #[trigger]
                                            self.get(p) is None by {
                                            if p.len() > 0 && p[0] != c {
                                                lemma_cons_split(p);
                                                lemma_at_cons(*self, p[0], p.drop_first());
                                            }
                                        }
                                    }
                                    None
                                } else {
                                    let r = Node::SubTree(entries);
                                    proof {
                                        lemma_rebuilt_without(*self, r, c);
                                        assert forall|p: Seq<char>| #[trigger]
                                            r.get(p) == if p == k {
                                                None
                                            } else {
                                                self.get(p)
                                            } by {
                                            if p.len() > 0 {
                                                lemma_cons_split(p);
                                                let q = p.drop_first();
                                                if p[0] == c {
                                                    assert(r.at(seq![c] + q) is None);
                                                } else {
                                                    assert(r.at(seq![p[0]] + q) == self.at(
                                                        seq![p[0]] + q,
                                                    ));
                                                }
                                            }
                                        }
                                    }
                                    Some(r)
                                }
                            },
                        }
                    },
                }
            },
        }
    }
    /// A chain of single-entry branches that binds exactly `key` to `value`.
    fn rec_add(key: Vector<char>, value: V) -> (r: Node<V>)
        ensures
            r.wf(),
            forall|p: Seq<char>| #[trigger]
                r.get(p) == if p == symbols(key) {
                    Some(value)
                } else {
                    None
                },
        decreases symbols(key).len(),
    {
        let mut key = key;
        let ghost k = symbols(key);
        match pop_symbol(&mut key) {
            None => {
                let r = Node::Value(Arc::new(value));
                proof {
                    assert forall|p: Seq<char>| #[trigger]
                        r.get(p) == if p == k {
                            Some(value)
                        } else {
                            None
                        } by {
                        if p.len() > 0 {
                            lemma_cons_split(p);
                            lemma_at_cons(r, p[0], p.drop_first());
                        } else {
                            assert(p == k);
                        }
                    }
                    assert forall|p: Seq<char>|
                        (#[trigger] r.at(p) matches Some(Node::SubTree(ch)) ==> ch@.len() > 0
                            && keys_increasing(ch@)) by {
                        if p.len() > 0 {
                            lemma_cons_split(p);
                            lemma_at_cons(r, p[0], p.drop_first());
                        }
                    }
                }
                r
            },
            Some(c) => {
                let ghost rest = symbols(key);
                let sub = Node::rec_add(key, value);
                let entries = vec![(c, Arc::new(sub))];
                let r = Node::SubTree(entries);
                proof {
                    lemma_cons_split(k);
                    lemma_child_index(entries@, 0);
                    assert forall|d: char| d != c implies #[trigger] child(entries@, d) is None by {}
                    assert forall|p: Seq<char>| #[trigger]
                        r.get(p) == if p == k {
                            Some(value)
                        } else {
                            None
                        } by {
                        if p.len() > 0 {
                            lemma_cons_split(p);
                            lemma_at_cons(r, p[0], p.drop_first());
                            if p[0] == c {
                                assert(p == k <==> p.drop_first() == rest);
                                assert(sub.get(p.drop_first()) == r.get(p));
                            }
                        }
                    }
                    assert forall|p: Seq<char>|
                        (#[trigger] r.at(p) matches Some(Node::SubTree(ch)) ==> ch@.len() > 0
                            && keys_increasing(ch@)) by {
                        if p.len() > 0 {
                            lemma_cons_split(p);
                            lemma_at_cons(r, p[0], p.drop_first());
                            if p[0] == c {
                                assert(r.at(p) == sub.at(p.drop_first()));
                            }
                        }
                    }
                }
                r
            },
        }
    }

    /// This node with `key` bound to `value`, unless a stored sequence is a
    /// strict prefix of `key` or `key` is a strict prefix of a stored one.
    fn rec_set(&self, key: Vector<char>, value: V) -> (r: Result<Node<V>, PrefixConflict>)
        requires
            self.wf(),
        ensures
            match r {
                Ok(n) => self.conflict(symbols(key)) is None && n.wf() && forall|p: Seq<char>|
                    #[trigger] n.get(p) == if p == symbols(key) {
                        Some(value)
                    } else {
                        self.get(p)
                    },
                Err(e) => self.conflict(symbols(key)) == Some(e),
            },
        decreases symbols(key).len(),
    {
        let mut key = key;
        let ghost k = symbols(key);
        proof {
            assert(k.take(0) == Seq::<char>::empty());
            assert(self.at(k.take(0)) == Some(*self));
        }
        match (pop_symbol(&mut key), self) {
            (None, Node::Value(_)) => {
                let r = Node::Value(Arc::new(value));
                proof {
                    assert(k == Seq::<char>::empty());
                    assert forall|p: Seq<char>| #[trigger]
                        r.get(p) == if p == k {
                            Some(value)
                        } else {
                            self.get(p)
                        } by {
                        if p.len() > 0 {
                            lemma_cons_split(p);
                            lemma_at_cons(r, p[0], p.drop_first());
                            lemma_at_cons(*self, p[0], p.drop_first());
                        } else {
                            assert(p == k);
                        }
                    }
                    assert forall|p: Seq<char>|
                        (#[trigger] r.at(p) matches Some(Node::SubTree(ch)) ==> ch@.len() > 0
                            && keys_increasing(ch@)) by {
                        if p.len() > 0 {
                            lemma_cons_split(p);
                            lemma_at_cons(r, p[0], p.drop_first());
                        }
                    }
                }
                Ok(r)
            },
            (None, Node::SubTree(_)) => {
                proof {
                    assert(k == Seq::<char>::empty());
                }
                Err(PrefixConflict::ExistingIsExtension)
            },
            (Some(_), Node::Value(_)) => Err(PrefixConflict::NewIsExtension),
            (Some(c), Node::SubTree(ord_map)) => {
                let ghost rest = symbols(key);
                proof {
                    lemma_cons_split(k);
                    lemma_conflict_step(*self, c, rest);
                    assert(self.at(Seq::empty()) == Some(*self));
                }
                let (pos, drop, sub) = match find_entry(ord_map, c) {
                    None => {
                        let sub = Node::rec_add(key, value);
                        assert(forall|q: Seq<char>| #[trigger] sub.get(q) == if q == rest {
                            Some(value)
                        } else {
                            None
                        });
                        (insertion_point(ord_map, c), 0, sub)
                    },
                    Some(i) => {
                        let node: &Node<V> = &ord_map[i].1;
                        proof {
                            lemma_child_wf(*self, c, *node);
                        }
                        match node.rec_set(key, value) {
                            Ok(sub) => (i, 1, sub),
                            Err(e) => {
                                return Err(e);
                            },
                        }
                    },
                };
                let ghost a = Arc::new(sub);
                let entries = splice(ord_map, pos, drop, Some((c, Arc::new(sub))));
                let r = Node::SubTree(entries);
                proof {
                    lemma_splice_child(ord_map@, entries@, pos as int, drop as int, c, a);
                    lemma_rebuilt(*self, r, c, sub);
                    assert forall|p: Seq<char>| #[trigger]
                        r.get(p) == if p == k {
                            Some(value)
                        } else {
                            self.get(p)
                        } by {
                        if p.len() > 0 {
                            lemma_cons_split(p);
                            let q = p.drop_first();
                            lemma_at_cons(*self, p[0], q);
                            if p[0] == c {
                                assert(p == k <==> q == rest);
                                assert(r.at(seq![c] + q) == sub.at(q));
                                assert(r.get(p) == sub.get(q));
                                assert(sub.get(q) == if q == rest {
                                    Some(value)
                                } else {
                                    match child(ord_map@, c) {
                                        Some(m) => m.get(q),
                                        None => None,
                                    }
                                });
                            } else {
                                assert(r.at(seq![p[0]] + q) == self.at(seq![p[0]] + q));
                            }
                        }
                    }
                }
                Ok(r)
            },
        }
    }

    fn rec_search(&self, key: Vector<char>) -> (r: SearchResult<V>)
        requires
            self.wf(),
        ensures
            r.describes(self.at(symbols(key))),
        decreases symbols(key).len(),
    {
        let mut key = key;
        let ghost k = symbols(key);
        match (pop_symbol(&mut key), self) {
            (None, Node::Value(value)) => SearchResult::Value(value.clone()),
            (None, Node::SubTree(ord_tree)) => {
                proof {
                    assert(self.at(k) == Some(*self));
                }
                SearchResult::Children(entry_keys(ord_tree))
            },
            (Some(_), Node::Value(_)) => SearchResult::NoMatch,
            (Some(c), Node::SubTree(ord_tree)) => {
                proof {
                    assert(self.at(Seq::empty()) == Some(*self));
                }
                match find_entry(ord_tree, c) {
                    None => SearchResult::NoMatch,
                    Some(i) => {
                        let node: &Node<V> = &ord_tree[i].1;
                        proof {
                            lemma_child_wf(*self, c, *node);
                        }
                        node.rec_search(key)
                    },
                }
            },
        }
    }
}

impl<V> Clone for Node<V> {
    /// A node with the same value or entries; nothing below it is copied.
    fn clone(&self) -> Self {
        self.share()
    }
}

impl<V> Clone for ChainTrie<V> {
    /// A tree with the same root; nothing below it is copied.
    fn clone(&self) -> Self {
        match self {
            ChainTrie::Empty => ChainTrie::Empty,
            ChainTrie::NonEmpty(node) => ChainTrie::NonEmpty(node.share()),
        }
    }
}

impl<V> ChainTrie<V> {
    /// The tree that holds nothing.
    pub fn new() -> (r: Self)
        ensures
            r.wf(),
            r@ == Map::<Seq<char>, V>::empty(),
    {
        let r = ChainTrie::Empty;
        assert(r@ == Map::<Seq<char>, V>::empty());
        r
    }

    /// A new tree with `key` bound to `value`; an existing binding of `key`
    /// is replaced. Refused, and nothing built, where `key` and a stored
    /// sequence are one a strict prefix of the other.
    pub fn with(&self, key: String, value: V) -> (r: Result<Self, PrefixConflict>)
        requires
            self.wf(),
        ensures
            match r {
                Ok(t) => prefix_conflict(self@, key@) is None && t.wf() && t@ == self@.insert(
                    key@,
                    value,
                ),
                Err(e) => prefix_conflict(self@, key@) == Some(e),
            },
    {
        let chars = key_to_vec(key);
        let ghost k = symbols(chars);
        proof {
            lemma_node_view(*self, k);
        }
        let node = match self {
            ChainTrie::Empty => Node::rec_add(chars, value),
            ChainTrie::NonEmpty(node) => match node.rec_set(chars, value) {
                Ok(n) => n,
                Err(e) => {
                    return Err(e);
                },
            },
        };
        let r = ChainTrie::NonEmpty(node);
        assert(r@ == self@.insert(k, value));
        Ok(r)
    }

    /// A new tree without the binding of `key`; the same bindings where
    /// `key` is not stored.
    pub fn without(&self, key: String) -> (r: Self)
        requires
            self.wf(),
        ensures
            r.wf(),
            r@ == self@.remove(key@),
            r is Empty <==> r@ == Map::<Seq<char>, V>::empty(),
    {
        let chars = key_to_vec(key);
        let ghost k = symbols(chars);
        let r = match self {
            ChainTrie::Empty => ChainTrie::Empty,
            ChainTrie::NonEmpty(node) => match node.rec_remove(chars) {
                None => ChainTrie::Empty,
                Some(node) => ChainTrie::NonEmpty(node),
            },
        };
        assert(r@ == self@.remove(k));
        proof {
            lemma_empty_view(r);
        }
        r
    }

    /// Looks up `key`: its value where it is stored, the symbols that continue
    /// it where it is a strict prefix of stored sequences, and no match otherwise.
    pub fn search(&self, key: Vector<char>) -> (r: SearchResult<V>)
        requires
            self.wf(),
        ensures
            r.answers(self@, symbols(key)),
    {
        let ghost k = symbols(key);
        let r = match self {
            ChainTrie::Empty => SearchResult::NoMatch,
            ChainTrie::NonEmpty(node) => node.rec_search(key),
        };
        proof {
            lemma_node_view(*self, k);
        }
        r
    }
}

} // verus!
