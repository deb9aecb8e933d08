//! The pattern trie: an arena of immutable nodes, built once at startup
//! from the configured note patterns and read concurrently by the matcher.
//!
//! Every edge points from a node to one with a strictly larger arena
//! index, so the structure is acyclic by construction.

use vstd::prelude::*;

verus! {

/// One position of a configured pattern: a concrete MIDI pitch, or a
/// wildcard that matches any pitch.
#[derive(Clone, Copy, PartialEq, Eq, Structural, Debug)]
pub enum Token {
    Pitch(u8),
    Wildcard,
}

/// A trie node: outgoing edges keyed by token, and the action id of a
/// pattern that ends exactly here, if any.
pub struct Node {
    /// The completion marker: `Some(a)` when some configured pattern
    /// ends at this node with action id `a`.
    pub action: Option<u32>,
    /// Outgoing edges, as an association list from token to the arena
    /// index of the child node. A later entry overrides an earlier one
    /// with the same token.
    pub rulemap: Vec<(Token, usize)>,
}

/// The value an association list binds to `t`: the entry added last wins.
pub open spec fn alist_get(s: Seq<(Token, usize)>, t: Token) -> Option<usize>
    decreases s.len(),
{
    if s.len() == 0 {
        None
    } else if s.last().0 == t {
        Some(s.last().1)
    } else {
        alist_get(s.drop_last(), t)
    }
}

/// A bound `t` comes from some entry of the list.
pub proof fn lemma_alist_get_entry(s: Seq<(Token, usize)>, t: Token, v: usize)
    requires
        alist_get(s, t) == Some(v),
    ensures
        exists|j: int| 0 <= j < s.len() && s[j] == (t, v),
    decreases s.len(),
{
    if s.len() > 0 {
        if s.last().0 == t {
            assert(s[s.len() - 1] == (t, v));
        } else {
            lemma_alist_get_entry(s.drop_last(), t, v);
            let j = choose|j: int| 0 <= j < s.drop_last().len() && s.drop_last()[j] == (t, v);
            assert(s[j] == (t, v));
        }
    }
}

impl Node {
    /// A fresh node with no edges and no completion marker.
    pub fn new() -> (n: Node)
        ensures
            n.action is None,
            n.rulemap@.len() == 0,
    {
        Node { action: None, rulemap: Vec::new() }
    }

    /// Binds `rule` to the child `node`, overriding any earlier binding.
    pub fn add_rule(&mut self, rule: Token, node: usize)
        ensures
            final(self).action == old(self).action,
            final(self).rulemap@ == old(self).rulemap@.push((rule, node)),
            alist_get(final(self).rulemap@, rule) == Some(node),
            forall|t: Token| t != rule
                ==> alist_get(final(self).rulemap@, t) == alist_get(old(self).rulemap@, t),
    {
        self.rulemap.push((rule, node));
        proof {
            assert(self.rulemap@.drop_last() =~= old(self).rulemap@);
        }
    }

    /// The child bound to `rule`, if any.
    pub fn get_rule(&self, rule: Token) -> (r: Option<usize>)
        ensures
            r == alist_get(self.rulemap@, rule),
    {
        let mut i: usize = self.rulemap.len();
        proof {
            assert(self.rulemap@.take(i as int) =~= self.rulemap@);
        }
        while i > 0
            invariant
                i <= self.rulemap@.len(),
                alist_get(self.rulemap@, rule) == alist_get(self.rulemap@.take(i as int), rule),
            decreases i,
        {
            let (t, v) = self.rulemap[i - 1];
            proof {
                assert(self.rulemap@.take(i as int).last() == self.rulemap@[i - 1]);
                assert(self.rulemap@.take(i as int).drop_last() =~= self.rulemap@.take(i - 1));
            }
            if t == rule {
                return Some(v);
            }
            i = i - 1;
        }
        proof {
            assert(self.rulemap@.take(0) =~= Seq::<(Token, usize)>::empty());
        }
        None
    }

    /// The completion marker of this node.
    pub fn get_value(&self) -> (r: Option<u32>)
        ensures
            r == self.action,
    {
        self.action
    }

    /// Whether this node has no outgoing edges.
    pub fn empty_rulemap(&self) -> (r: bool)
        ensures
            r == (self.rulemap@.len() == 0),
    {
        self.rulemap.len() == 0
    }
}

/// The compiled pattern library: an arena of trie nodes. `nodes[0]` is
/// the root; every edge points to a strictly larger index, so walks
/// always terminate.
pub struct PatternLibrary {
    pub nodes: Vec<Node>,
}

impl PatternLibrary {
    /// Arena well-formedness: a root exists, and every edge target lies
    /// strictly between its source index and the arena length.
    pub open spec fn wf(self) -> bool {
        &&& self.nodes@.len() >= 1
        &&& forall|i: int, j: int|
                0 <= i < self.nodes@.len() && 0 <= j < self.nodes@[i].rulemap@.len()
                ==> i < (#[trigger] self.nodes@[i].rulemap@[j]).1 < self.nodes@.len()
    }

    /// No two edges share a target: each node but the root has at most
    /// one incoming edge, so the trie is a tree and a token path
    /// determines its end node uniquely.
    pub open spec fn tree(self) -> bool {
        forall|i1: int, j1: int, i2: int, j2: int|
            0 <= i1 < self.nodes@.len() && 0 <= j1 < self.nodes@[i1].rulemap@.len()
            && 0 <= i2 < self.nodes@.len() && 0 <= j2 < self.nodes@[i2].rulemap@.len()
            && (i1 != i2 || j1 != j2)
            ==> (#[trigger] self.nodes@[i1].rulemap@[j1]).1
                != (#[trigger] self.nodes@[i2].rulemap@[j2]).1
    }

    /// A fresh library holding only an unmarked root.
    pub fn new() -> (lib: PatternLibrary)
        ensures
            lib.wf(),
            lib.tree(),
            lib.nodes@.len() == 1,
            lib.nodes@[0].action is None,
            lib.nodes@[0].rulemap@.len() == 0,
    {
        let mut nodes: Vec<Node> = Vec::new();
        nodes.push(Node::new());
        PatternLibrary { nodes }
    }
}

/// The node reached from `n` by taking the edge of each token in turn,
/// or `None` where an edge is missing.
pub open spec fn follow_tokens(lib: PatternLibrary, n: int, ts: Seq<Token>) -> Option<int>
    decreases ts.len(),
{
    if ts.len() == 0 {
        Some(n)
    } else if 0 <= n < lib.nodes@.len() {
        match alist_get(lib.nodes@[n].rulemap@, ts.first()) {
            Some(c) => follow_tokens(lib, c as int, ts.drop_first()),
            None => None,
        }
    } else {
        None
    }
}

/// An edge target widened to a spec integer.
pub open spec fn opt_int(o: Option<usize>) -> Option<int> {
    match o {
        Some(c) => Some(c as int),
        None => None,
    }
}

/// The action the library binds to a token sequence: the completion
/// marker of the node its path ends at, if the path exists.
pub open spec fn pattern_action(lib: PatternLibrary, ts: Seq<Token>) -> Option<u32> {
    match follow_tokens(lib, 0, ts) {
        Some(m) => if 0 <= m < lib.nodes@.len() {
            lib.nodes@[m].action
        } else {
            None
        },
        None => None,
    }
}

/// `b` keeps every node of `a` and every token binding it had; it may
/// add nodes and bind previously missing tokens.
pub open spec fn edges_preserved(a: PatternLibrary, b: PatternLibrary) -> bool {
    &&& a.nodes@.len() <= b.nodes@.len()
    &&& forall|i: int, t: Token|
            0 <= i < a.nodes@.len() && (#[trigger] alist_get(a.nodes@[i].rulemap@, t)) is Some
            ==> alist_get(b.nodes@[i].rulemap@, t) == alist_get(a.nodes@[i].rulemap@, t)
}

pub proof fn lemma_edges_preserved_trans(a: PatternLibrary, b: PatternLibrary, c: PatternLibrary)
    requires
        edges_preserved(a, b),
        edges_preserved(b, c),
    ensures
        edges_preserved(a, c),
{
    assert forall|i: int, t: Token|
        0 <= i < a.nodes@.len() && (#[trigger] alist_get(a.nodes@[i].rulemap@, t)) is Some
        implies alist_get(c.nodes@[i].rulemap@, t) == alist_get(a.nodes@[i].rulemap@, t) by {
        assert(alist_get(b.nodes@[i].rulemap@, t) == alist_get(a.nodes@[i].rulemap@, t));
    }
}

/// A token walk that succeeds in `a` takes the same path in any
/// edge-preserving extension of `a`.
pub proof fn lemma_follow_preserved(a: PatternLibrary, b: PatternLibrary, n: int, ts: Seq<Token>)
    requires
        a.wf(),
        edges_preserved(a, b),
        0 <= n < a.nodes@.len(),
        follow_tokens(a, n, ts) is Some,
    ensures
        follow_tokens(b, n, ts) == follow_tokens(a, n, ts),
    decreases ts.len(),
{
    if ts.len() > 0 {
        let c = alist_get(a.nodes@[n].rulemap@, ts.first());
        match c {
            Some(child) => {
                lemma_alist_get_entry(a.nodes@[n].rulemap@, ts.first(), child);
                assert(n < child < a.nodes@.len());
                lemma_follow_preserved(a, b, child as int, ts.drop_first());
            },
            None => {},
        }
    }
}

/// Unfolds a walk at its far end: following `ts.push(t)` is following
/// `ts` and then taking the edge for `t`.
pub proof fn lemma_follow_snoc(lib: PatternLibrary, n: int, ts: Seq<Token>, t: Token)
    requires
        0 <= n,
    ensures
        follow_tokens(lib, n, ts.push(t)) == (match follow_tokens(lib, n, ts) {
            Some(m) => if m < lib.nodes@.len() {
                opt_int(alist_get(lib.nodes@[m].rulemap@, t))
            } else {
                None
            },
            None => None,
        }),
    decreases ts.len(),
{
    let tsp = ts.push(t);
    assert(tsp.len() == ts.len() + 1);
    if ts.len() == 0 {
        assert(tsp.first() == t);
        assert(tsp.drop_first() =~= Seq::<Token>::empty());
        if n < lib.nodes@.len() {
            match alist_get(lib.nodes@[n].rulemap@, t) {
                Some(c) => {
                    assert(follow_tokens(lib, n, tsp) == follow_tokens(lib, c as int,
                        tsp.drop_first()));
                    assert(follow_tokens(lib, c as int, tsp.drop_first()) == Some(c as int));
                },
                None => {
                    assert(follow_tokens(lib, n, tsp) is None);
                },
            }
        } else {
            assert(follow_tokens(lib, n, tsp) is None);
        }
    } else {
        assert(tsp.first() == ts.first());
        assert(tsp.drop_first() =~= ts.drop_first().push(t));
        if n < lib.nodes@.len() {
            match alist_get(lib.nodes@[n].rulemap@, ts.first()) {
                Some(c) => {
                    assert(follow_tokens(lib, n, tsp) == follow_tokens(lib, c as int,
                        ts.drop_first().push(t)));
                    assert(follow_tokens(lib, n, ts) == follow_tokens(lib, c as int,
                        ts.drop_first()));
                    lemma_follow_snoc(lib, c as int, ts.drop_first(), t);
                },
                None => {
                    assert(follow_tokens(lib, n, tsp) is None);
                    assert(follow_tokens(lib, n, ts) is None);
                },
            }
        } else {
            assert(follow_tokens(lib, n, tsp) is None);
            assert(follow_tokens(lib, n, ts) is None);
        }
    }
}

impl PatternLibrary {
    /// Inserts one pattern: walks the trie from the root along `tokens`,
    /// creating the missing nodes, and marks the node the walk ends at
    /// with `action`. Patterns sharing a prefix converge on the same
    /// nodes, which is what lets one incoming note advance all of them
    /// in a single step.
    pub fn add_pattern(&mut self, tokens: &Vec<Token>, action: u32)
        requires
            old(self).wf(),
            old(self).tree(),
            tokens@.len() >= 1,
        ensures
            final(self).wf(),
            final(self).tree(),
            edges_preserved(*old(self), *final(self)),
            final(self).nodes@.len() <= old(self).nodes@.len() + tokens@.len(),
            follow_tokens(*final(self), 0, tokens@) is Some,
            // the walked-to node is marked with `action`; every other
            // completion marker is untouched, and the fresh nodes carry none
            forall|i: int| 0 <= i < final(self).nodes@.len()
                ==> (#[trigger] final(self).nodes@[i].action) == (
                    if Some(i) == follow_tokens(*final(self), 0, tokens@) {
                        Some(action)
                    } else if i < old(self).nodes@.len() {
                        old(self).nodes@[i].action
                    } else {
                        Option::<u32>::None
                    }),
            // a binding that changed at a pre-existing node points at a fresh node
            forall|i: int, t: Token|
                0 <= i < old(self).nodes@.len()
                && (#[trigger] alist_get(final(self).nodes@[i].rulemap@, t))
                    != alist_get(old(self).nodes@[i].rulemap@, t)
                ==> exists|c: usize|
                        alist_get(final(self).nodes@[i].rulemap@, t) == Some(c)
                        && c >= old(self).nodes@.len(),
    {
        let ghost base = *old(self);
        let n = tokens.len();
        let mut cur: usize = 0;
        proof {
            assert(tokens@.take(0) =~= Seq::<Token>::empty());
        }
        let mut i: usize = 0;
        while i < n
            invariant
                i <= n,
                n == tokens@.len(),
                self.wf(),
                self.tree(),
                base.wf(),
                cur < self.nodes@.len(),
                edges_preserved(base, *self),
                self.nodes@.len() <= base.nodes@.len() + i,
                follow_tokens(*self, 0, tokens@.take(i as int)) == Some(cur as int),
                forall|k: int| 0 <= k < self.nodes@.len()
                    ==> (#[trigger] self.nodes@[k].action) == (
                        if k < base.nodes@.len() {
                            base.nodes@[k].action
                        } else {
                            Option::<u32>::None
                        }),
                forall|k: int, t: Token|
                    0 <= k < base.nodes@.len()
                    && (#[trigger] alist_get(self.nodes@[k].rulemap@, t))
                        != alist_get(base.nodes@[k].rulemap@, t)
                    ==> exists|c: usize|
                            alist_get(self.nodes@[k].rulemap@, t) == Some(c)
                            && c >= base.nodes@.len(),
            decreases n - i,
        {
            let t = tokens[i];
            let ghost prev = *self;
            let step = self.nodes[cur].get_rule(t);
            match step {
                Some(c) => {
                    proof {
                        lemma_alist_get_entry(self.nodes@[cur as int].rulemap@, t, c);
                        lemma_follow_snoc(*self, 0, tokens@.take(i as int), t);
                        assert(tokens@.take(i as int).push(t) =~= tokens@.take(i + 1));
                    }
                    cur = c;
                },
                None => {
                    let fresh = self.nodes.len();
                    self.nodes.push(Node::new());
                    let node = &mut self.nodes[cur];
                    node.add_rule(t, fresh);
                    proof {
                        let cu = cur as int;
                        // every pre-existing entry is unchanged; one entry was appended at `cur`
                        assert(self.nodes@[cu].rulemap@ == prev.nodes@[cu].rulemap@.push(
                            (t, fresh)));
                        assert(forall|k: int| 0 <= k < self.nodes@.len() && k != cu
                            ==> #[trigger] self.nodes@[k].rulemap@ == (
                                if k < prev.nodes@.len() {
                                    prev.nodes@[k].rulemap@
                                } else {
                                    Seq::<(Token, usize)>::empty()
                                }));
                        // well-formedness: old entries keep their bounds, the new one is in range
                        assert forall|k: int, j: int|
                            0 <= k < self.nodes@.len() && 0 <= j < self.nodes@[k].rulemap@.len()
                            implies k < (#[trigger] self.nodes@[k].rulemap@[j]).1
                                < self.nodes@.len() by {
                            if k == cu && j == prev.nodes@[cu].rulemap@.len() {
                                assert(self.nodes@[k].rulemap@[j] == (t, fresh));
                            } else {
                                assert(self.nodes@[k].rulemap@[j] == prev.nodes@[k].rulemap@[j]);
                            }
                        }
                        // tree-ness: the new edge targets a node no old edge can target
                        assert forall|i1: int, j1: int, i2: int, j2: int|
                            0 <= i1 < self.nodes@.len() && 0 <= j1 < self.nodes@[i1].rulemap@.len()
                            && 0 <= i2 < self.nodes@.len()
                            && 0 <= j2 < self.nodes@[i2].rulemap@.len()
                            && (i1 != i2 || j1 != j2)
                            implies (#[trigger] self.nodes@[i1].rulemap@[j1]).1
                                != (#[trigger] self.nodes@[i2].rulemap@[j2]).1 by {
                            let newj = prev.nodes@[cu].rulemap@.len();
                            if i1 == cu && j1 == newj {
                                assert(self.nodes@[i2].rulemap@[j2] == prev.nodes@[i2].rulemap@[j2]);
                                assert(prev.nodes@[i2].rulemap@[j2].1 < fresh);
                            } else if i2 == cu && j2 == newj {
                                assert(self.nodes@[i1].rulemap@[j1] == prev.nodes@[i1].rulemap@[j1]);
                                assert(prev.nodes@[i1].rulemap@[j1].1 < fresh);
                            } else {
                                assert(self.nodes@[i1].rulemap@[j1] == prev.nodes@[i1].rulemap@[j1]);
                                assert(self.nodes@[i2].rulemap@[j2] == prev.nodes@[i2].rulemap@[j2]);
                            }
                        }
                        // the step preserves every earlier binding
                        assert(edges_preserved(prev, *self));
                        lemma_edges_preserved_trans(base, prev, *self);
                        lemma_follow_preserved(prev, *self, 0, tokens@.take(i as int));
                        lemma_follow_snoc(*self, 0, tokens@.take(i as int), t);
                        assert(tokens@.take(i as int).push(t) =~= tokens@.take(i + 1));
                        assert(alist_get(self.nodes@[cu].rulemap@, t) == Some(fresh));
                    }
                    cur = fresh;
                },
            }
            i += 1;
        }
        proof {
            assert(tokens@.take(n as int) =~= tokens@);
        }
        let ghost walked = *self;
        let node = &mut self.nodes[cur];
        node.action = Some(action);
        proof {
            let cu = cur as int;
            assert(self.nodes@[cu].rulemap@ == walked.nodes@[cu].rulemap@);
            assert(forall|k: int| 0 <= k < self.nodes@.len() && k != cu
                ==> #[trigger] self.nodes@[k] == walked.nodes@[k]);
            assert forall|k: int, j: int|
                0 <= k < self.nodes@.len() && 0 <= j < self.nodes@[k].rulemap@.len()
                implies k < (#[trigger] self.nodes@[k].rulemap@[j]).1 < self.nodes@.len() by {
                assert(self.nodes@[k].rulemap@[j] == walked.nodes@[k].rulemap@[j]);
            }
            assert forall|i1: int, j1: int, i2: int, j2: int|
                0 <= i1 < self.nodes@.len() && 0 <= j1 < self.nodes@[i1].rulemap@.len()
                && 0 <= i2 < self.nodes@.len() && 0 <= j2 < self.nodes@[i2].rulemap@.len()
                && (i1 != i2 || j1 != j2)
                implies (#[trigger] self.nodes@[i1].rulemap@[j1]).1
                    != (#[trigger] self.nodes@[i2].rulemap@[j2]).1 by {
                assert(self.nodes@[i1].rulemap@[j1] == walked.nodes@[i1].rulemap@[j1]);
                assert(self.nodes@[i2].rulemap@[j2] == walked.nodes@[i2].rulemap@[j2]);
            }
            assert(edges_preserved(walked, *self));
            lemma_edges_preserved_trans(base, walked, *self);
            lemma_follow_preserved(walked, *self, 0, tokens@);
            assert(follow_tokens(*self, 0, tokens@) == Some(cur as int));
            assert forall|i: int| 0 <= i < self.nodes@.len()
                implies (#[trigger] self.nodes@[i].action) == (
                    if Some(i) == follow_tokens(*self, 0, tokens@) {
                        Some(action)
                    } else if i < base.nodes@.len() {
                        base.nodes@[i].action
                    } else {
                        Option::<u32>::None
                    }) by {
                if i == cu {
                    assert(self.nodes@[i].action == Some(action));
                } else {
                    assert(self.nodes@[i] == walked.nodes@[i]);
                }
            }
        }
    }
}

/// A successful walk never leaves the arena and, over at least one
/// token, moves to a strictly larger index.
pub proof fn lemma_follow_in_range(lib: PatternLibrary, n: int, ts: Seq<Token>)
    requires
        lib.wf(),
        0 <= n < lib.nodes@.len(),
        follow_tokens(lib, n, ts) is Some,
    ensures
        follow_tokens(lib, n, ts) matches Some(m)
            ==> n <= m < lib.nodes@.len() && (ts.len() > 0 ==> n < m),
    decreases ts.len(),
{
    if ts.len() > 0 {
        match alist_get(lib.nodes@[n].rulemap@, ts.first()) {
            Some(c) => {
                lemma_alist_get_entry(lib.nodes@[n].rulemap@, ts.first(), c);
                lemma_follow_in_range(lib, c as int, ts.drop_first());
            },
            None => {},
        }
    }
}

/// In a tree-shaped library a node determines the token path that
/// reaches it: two walks from the root that end at the same node
/// followed the same tokens.
pub proof fn lemma_follow_injective(lib: PatternLibrary, ts1: Seq<Token>, ts2: Seq<Token>)
    requires
        lib.wf(),
        lib.tree(),
        follow_tokens(lib, 0, ts1) is Some,
        follow_tokens(lib, 0, ts1) == follow_tokens(lib, 0, ts2),
    ensures
        ts1 == ts2,
    decreases ts1.len(),
{
    lemma_follow_in_range(lib, 0, ts1);
    lemma_follow_in_range(lib, 0, ts2);
    let m = follow_tokens(lib, 0, ts1)->Some_0;
    if ts1.len() == 0 {
        if ts2.len() != 0 {
            assert(m == 0);
            assert(false);
        } else {
            assert(ts1 =~= ts2);
        }
    } else {
        if ts2.len() == 0 {
            assert(false);
        }
        let p1 = ts1.drop_last();
        let p2 = ts2.drop_last();
        assert(ts1 =~= p1.push(ts1.last()));
        assert(ts2 =~= p2.push(ts2.last()));
        lemma_follow_snoc(lib, 0, p1, ts1.last());
        lemma_follow_snoc(lib, 0, p2, ts2.last());
        let q1 = follow_tokens(lib, 0, p1)->Some_0;
        let q2 = follow_tokens(lib, 0, p2)->Some_0;
        lemma_follow_in_range(lib, 0, p1);
        lemma_follow_in_range(lib, 0, p2);
        assert(alist_get(lib.nodes@[q1].rulemap@, ts1.last()) == Some(m as usize));
        assert(alist_get(lib.nodes@[q2].rulemap@, ts2.last()) == Some(m as usize));
        lemma_alist_get_entry(lib.nodes@[q1].rulemap@, ts1.last(), m as usize);
        lemma_alist_get_entry(lib.nodes@[q2].rulemap@, ts2.last(), m as usize);
        let j1 = choose|j: int|
            0 <= j < lib.nodes@[q1].rulemap@.len()
            && lib.nodes@[q1].rulemap@[j] == (ts1.last(), m as usize);
        let j2 = choose|j: int|
            0 <= j < lib.nodes@[q2].rulemap@.len()
            && lib.nodes@[q2].rulemap@[j] == (ts2.last(), m as usize);
        // two edges with the same target must be the same edge
        assert(q1 == q2 && j1 == j2);
        assert(ts1.last() == ts2.last());
        lemma_follow_injective(lib, p1, p2);
    }
}

/// New bindings added by the builder all lead into fresh territory, so
/// a walk that ends at a pre-existing node used pre-existing edges only
/// and succeeds unchanged in the smaller library.
pub proof fn lemma_follow_fresh(a: PatternLibrary, b: PatternLibrary, n: int, ts: Seq<Token>, m: int)
    requires
        a.wf(),
        b.wf(),
        edges_preserved(a, b),
        forall|i: int, t: Token|
            0 <= i < a.nodes@.len()
            && (#[trigger] alist_get(b.nodes@[i].rulemap@, t)) != alist_get(a.nodes@[i].rulemap@, t)
            ==> exists|c: usize|
                    alist_get(b.nodes@[i].rulemap@, t) == Some(c) && c >= a.nodes@.len(),
        0 <= n < a.nodes@.len(),
        follow_tokens(b, n, ts) == Some(m),
        m < a.nodes@.len(),
    ensures
        follow_tokens(a, n, ts) == Some(m),
    decreases ts.len(),
{
    if ts.len() == 0 {
        assert(m == n);
    } else {
        let t = ts.first();
        match alist_get(b.nodes@[n].rulemap@, t) {
            Some(c) => {
                if alist_get(a.nodes@[n].rulemap@, t) == alist_get(b.nodes@[n].rulemap@, t) {
                    lemma_alist_get_entry(a.nodes@[n].rulemap@, t, c);
                    assert(n < c < a.nodes@.len());
                    lemma_follow_fresh(a, b, c as int, ts.drop_first(), m);
                } else {
                    // the binding is new, so it targets a fresh node and the
                    // rest of the walk can only move further into fresh nodes
                    assert(c >= a.nodes@.len());
                    lemma_follow_in_range(b, c as int, ts.drop_first());
                    assert(false);
                }
            },
            None => {
                assert(false);
            },
        }
    }
}

/// One configured pattern: its token sequence and the action id fired
/// on its completion.
pub struct Pattern {
    pub tokens: Vec<Token>,
    pub action: u32,
}

/// The action bound to `ts` by a pattern list where a later entry with
/// the same tokens overrides an earlier one.
pub open spec fn last_action(patterns: Seq<Pattern>, ts: Seq<Token>) -> Option<u32>
    decreases patterns.len(),
{
    if patterns.len() == 0 {
        None
    } else if patterns.last().tokens@ == ts {
        Some(patterns.last().action)
    } else {
        last_action(patterns.drop_last(), ts)
    }
}

impl PatternLibrary {
    /// Compiles a pattern list into a trie. The library afterwards binds
    /// exactly the configured token sequences, each to the action of the
    /// last pattern that listed it.
    pub fn from_patterns(patterns: &Vec<Pattern>) -> (lib: PatternLibrary)
        requires
            forall|k: int|
                0 <= k < patterns@.len() ==> (#[trigger] patterns@[k]).tokens@.len() >= 1,
        ensures
            lib.wf(),
            lib.tree(),
            forall|ts: Seq<Token>|
                #[trigger] pattern_action(lib, ts) == last_action(patterns@, ts),
    {
        let mut lib = PatternLibrary::new();
        proof {
            assert forall|ts: Seq<Token>|
                #[trigger] pattern_action(lib, ts) == last_action(patterns@.take(0), ts) by {
                assert(patterns@.take(0) =~= Seq::<Pattern>::empty());
                if ts.len() > 0 {
                    assert(alist_get(lib.nodes@[0].rulemap@, ts.first()) is None);
                }
            }
        }
        let n = patterns.len();
        let mut i: usize = 0;
        while i < n
            invariant
                i <= n,
                n == patterns@.len(),
                forall|k: int|
                    0 <= k < patterns@.len() ==> (#[trigger] patterns@[k]).tokens@.len() >= 1,
                lib.wf(),
                lib.tree(),
                forall|ts: Seq<Token>|
                    #[trigger] pattern_action(lib, ts) == last_action(patterns@.take(i as int), ts),
            decreases n - i,
        {
            let ghost prev = lib;
            let tk = &patterns[i].tokens;
            let act = patterns[i].action;
            lib.add_pattern(tk, act);
            proof {
                let tks = tk@;
                let m = follow_tokens(lib, 0, tks)->Some_0;
                lemma_follow_in_range(lib, 0, tks);
                assert forall|ts: Seq<Token>|
                    #[trigger] pattern_action(lib, ts) == last_action(patterns@.take(i + 1), ts) by {
                    assert(patterns@.take(i + 1).last() == patterns@[i as int]);
                    assert(patterns@.take(i + 1).drop_last() =~= patterns@.take(i as int));
                    if ts == tks {
                        assert(pattern_action(lib, ts) == Some(act));
                        assert(last_action(patterns@.take(i + 1), ts) == Some(act));
                    } else {
                        assert(last_action(patterns@.take(i + 1), ts) == last_action(
                            patterns@.take(i as int), ts));
                        match follow_tokens(lib, 0, ts) {
                            Some(mm) => {
                                lemma_follow_in_range(lib, 0, ts);
                                if Some(mm) == follow_tokens(lib, 0, tks) {
                                    lemma_follow_injective(lib, ts, tks);
                                    assert(false);
                                }
                                if mm < prev.nodes@.len() {
                                    lemma_follow_fresh(prev, lib, 0, ts, mm);
                                    assert(pattern_action(lib, ts) == prev.nodes@[mm].action);
                                    assert(pattern_action(prev, ts) == prev.nodes@[mm].action);
                                } else {
                                    assert(pattern_action(lib, ts) is None);
                                    match follow_tokens(prev, 0, ts) {
                                        Some(m2) => {
                                            lemma_follow_in_range(prev, 0, ts);
                                            lemma_follow_preserved(prev, lib, 0, ts);
                                            assert(false);
                                        },
                                        None => {
                                            assert(pattern_action(prev, ts) is None);
                                        },
                                    }
                                }
                            },
                            None => {
                                assert(pattern_action(lib, ts) is None);
                                match follow_tokens(prev, 0, ts) {
                                    Some(m2) => {
                                        lemma_follow_in_range(prev, 0, ts);
                                        lemma_follow_preserved(prev, lib, 0, ts);
                                        assert(false);
                                    },
                                    None => {
                                        assert(pattern_action(prev, ts) is None);
                                    },
                                }
                            },
                        }
                    }
                }
            }
            i += 1;
        }
        proof {
            assert(patterns@.take(n as int) =~= patterns@);
        }
        lib
    }
}

} // verus!
