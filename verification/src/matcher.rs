//! The streaming multi-pattern matcher: a set of live trie nodes, one
//! per pattern prefix currently satisfied by the note history, advanced
//! on every incoming note-on pitch.

use vstd::prelude::*;
use crate::trie::alist_get;
use crate::trie::follow_tokens;
use crate::trie::lemma_alist_get_entry;
use crate::trie::opt_int;
use crate::trie::pattern_action;
use crate::trie::PatternLibrary;
use crate::trie::Token;

verus! {

/// The child a node steps to on pitch `p`: the concrete edge when one
/// exists, else the wildcard edge — an exact match is preferred, so a
/// specific pattern is never masked by a more general one.
pub open spec fn spec_step(lib: PatternLibrary, n: int, p: u8) -> Option<usize> {
    match alist_get(lib.nodes@[n].rulemap@, Token::Pitch(p)) {
        Some(c) => Some(c),
        None => alist_get(lib.nodes@[n].rulemap@, Token::Wildcard),
    }
}

/// The stepped-to child as a sequence: a singleton on a match, empty on
/// a dead end.
pub open spec fn step_seq(lib: PatternLibrary, n: int, p: u8) -> Seq<usize> {
    match spec_step(lib, n, p) {
        Some(c) => seq![c],
        None => Seq::empty(),
    }
}

/// The action emitted by stepping from `n` on `p`: a singleton when the
/// stepped-to child carries a completion marker.
pub open spec fn step_emit(lib: PatternLibrary, n: int, p: u8) -> Seq<u32> {
    match spec_step(lib, n, p) {
        Some(c) => match lib.nodes@[c as int].action {
            Some(a) => seq![a],
            None => Seq::empty(),
        },
        None => Seq::empty(),
    }
}

/// The children that the nodes of `live` step to on `p`, in order;
/// nodes with no matching edge are dropped.
pub open spec fn next_live_of(lib: PatternLibrary, live: Seq<usize>, p: u8) -> Seq<usize>
    decreases live.len(),
{
    if live.len() == 0 {
        Seq::empty()
    } else {
        next_live_of(lib, live.drop_last(), p) + step_seq(lib, live.last() as int, p)
    }
}

/// The actions emitted by the nodes of `live` stepping on `p`, in order.
pub open spec fn emits_of(lib: PatternLibrary, live: Seq<usize>, p: u8) -> Seq<u32>
    decreases live.len(),
{
    if live.len() == 0 {
        Seq::empty()
    } else {
        emits_of(lib, live.drop_last(), p) + step_emit(lib, live.last() as int, p)
    }
}

/// The live set after one note: the stepped children of the old live
/// set, then the child of a fresh attempt from the root — a new match
/// may start on every note.
pub open spec fn spec_advance_live(lib: PatternLibrary, live: Seq<usize>, p: u8) -> Seq<usize> {
    next_live_of(lib, live, p) + step_seq(lib, 0, p)
}

/// The actions completed by one note, live-set contributions first,
/// the root attempt last.
pub open spec fn spec_advance_emits(lib: PatternLibrary, live: Seq<usize>, p: u8) -> Seq<u32> {
    emits_of(lib, live, p) + step_emit(lib, 0, p)
}

/// The matcher state: the indices of the currently live trie nodes.
pub struct PatternMatcher {
    pub live: Vec<usize>,
}

impl PatternMatcher {
    /// Every live index points into the library's arena.
    pub open spec fn wf(self, lib: PatternLibrary) -> bool {
        forall|j: int| 0 <= j < self.live@.len() ==> (#[trigger] self.live@[j]) < lib.nodes@.len()
    }

    /// A matcher with no partial match in progress: the boot state.
    pub fn new() -> (m: PatternMatcher)
        ensures
            m.live@.len() == 0,
            forall|lib: PatternLibrary| m.wf(lib),
    {
        PatternMatcher { live: Vec::new() }
    }
}

/// One preference step: the concrete edge for `p` when present, else
/// the wildcard edge.
pub fn step_from(lib: &PatternLibrary, n: usize, p: u8) -> (r: Option<usize>)
    requires
        lib.wf(),
        n < lib.nodes@.len(),
    ensures
        r == spec_step(*lib, n as int, p),
        r matches Some(c) ==> n < c < lib.nodes@.len(),
{
    let r = match lib.nodes[n].get_rule(Token::Pitch(p)) {
        Some(c) => Some(c),
        None => lib.nodes[n].get_rule(Token::Wildcard),
    };
    proof {
        if let Some(c) = r {
            if alist_get(lib.nodes@[n as int].rulemap@, Token::Pitch(p)) == Some(c) {
                lemma_alist_get_entry(lib.nodes@[n as int].rulemap@, Token::Pitch(p), c);
            } else {
                lemma_alist_get_entry(lib.nodes@[n as int].rulemap@, Token::Wildcard, c);
            }
        }
    }
    r
}

/// The action id of the pattern that completes at `node`, if `node`
/// carries a completion marker.
pub fn successful_pattern(lib: &PatternLibrary, node: usize) -> (r: Option<u32>)
    requires
        node < lib.nodes@.len(),
    ensures
        r == lib.nodes@[node as int].action,
{
    lib.nodes[node].get_value()
}

/// Advances the matcher on one note-on pitch and returns the action ids
/// of every pattern that completes on it, normally none or one.
pub fn interpret_note(lib: &PatternLibrary, matcher: &mut PatternMatcher, note: u8) -> (acts:
    Vec<u32>)
    requires
        lib.wf(),
        old(matcher).wf(*lib),
    ensures
        final(matcher).wf(*lib),
        final(matcher).live@ == spec_advance_live(*lib, old(matcher).live@, note),
        acts@ == spec_advance_emits(*lib, old(matcher).live@, note),
{
    let mut new_live: Vec<usize> = Vec::new();
    let mut acts: Vec<u32> = Vec::new();
    let n = matcher.live.len();
    proof {
        assert(matcher.live@.take(0) =~= Seq::<usize>::empty());
    }
    let mut i: usize = 0;
    while i < n
        invariant
            lib.wf(),
            matcher.wf(*lib),
            i <= n,
            n == matcher.live@.len(),
            new_live@ == next_live_of(*lib, matcher.live@.take(i as int), note),
            acts@ == emits_of(*lib, matcher.live@.take(i as int), note),
            forall|j: int| 0 <= j < new_live@.len() ==> (#[trigger] new_live@[j]) < lib.nodes@.len(),
        decreases n - i,
    {
        let cur = matcher.live[i];
        let ghost prev_new = new_live@;
        let ghost prev_acts = acts@;
        match step_from(lib, cur, note) {
            Some(child) => {
                match successful_pattern(lib, child) {
                    Some(a) => acts.push(a),
                    None => {},
                }
                new_live.push(child);
            },
            None => {},
        }
        proof {
            let t = matcher.live@.take(i + 1);
            assert(t.drop_last() =~= matcher.live@.take(i as int));
            assert(t.last() == matcher.live@[i as int]);
            assert(new_live@ =~= prev_new + step_seq(*lib, cur as int, note));
            assert(acts@ =~= prev_acts + step_emit(*lib, cur as int, note));
        }
        i += 1;
    }
    proof {
        assert(matcher.live@.take(n as int) =~= matcher.live@);
    }
    let ghost prev_new = new_live@;
    let ghost prev_acts = acts@;
    match step_from(lib, 0, note) {
        Some(child) => {
            match successful_pattern(lib, child) {
                Some(a) => acts.push(a),
                None => {},
            }
            new_live.push(child);
        },
        None => {},
    }
    proof {
        assert(new_live@ =~= prev_new + step_seq(*lib, 0, note));
        assert(acts@ =~= prev_acts + step_emit(*lib, 0, note));
    }
    matcher.live = new_live;
    acts
}

/// Bounded growth: one advance keeps at most one child per live node
/// and adds at most the root attempt, so the live set — and with it
/// the work of a note — never grows by more than one per note.
pub proof fn lemma_advance_live_len(lib: PatternLibrary, live: Seq<usize>, p: u8)
    ensures
        spec_advance_live(lib, live, p).len() <= live.len() + 1,
    decreases live.len(),
{
    lemma_next_live_len(lib, live, p);
}

/// Each live node contributes at most one node to the next live set.
proof fn lemma_next_live_len(lib: PatternLibrary, live: Seq<usize>, p: u8)
    ensures
        next_live_of(lib, live, p).len() <= live.len(),
    decreases live.len(),
{
    if live.len() > 0 {
        lemma_next_live_len(lib, live.drop_last(), p);
    }
}

/// The live set after feeding a whole pitch sequence, one advance per
/// pitch.
pub open spec fn run_live(lib: PatternLibrary, live: Seq<usize>, ps: Seq<u8>) -> Seq<usize>
    decreases ps.len(),
{
    if ps.len() == 0 {
        live
    } else {
        run_live(lib, spec_advance_live(lib, live, ps.first()), ps.drop_first())
    }
}

/// The pitches `ps` walk the token path `ts` from `n`: at each position
/// the edge for the token exists and is exactly the edge the
/// preference step picks for the pitch. A concrete token always
/// satisfies this for its own pitch; a wildcard token does whenever the
/// node has no concrete edge for the fed pitch.
pub open spec fn path_matches(lib: PatternLibrary, n: int, ts: Seq<Token>, ps: Seq<u8>) -> bool
    decreases ts.len(),
{
    &&& ts.len() == ps.len()
    &&& ts.len() > 0 ==> {
        &&& alist_get(lib.nodes@[n].rulemap@, ts.first()) is Some
        &&& spec_step(lib, n, ps.first()) == alist_get(lib.nodes@[n].rulemap@, ts.first())
        &&& path_matches(lib, alist_get(lib.nodes@[n].rulemap@, ts.first())->Some_0 as int,
                ts.drop_first(), ps.drop_first())
    }
}

/// A live node's successful step puts its child in the next live set.
proof fn lemma_step_live_membership(lib: PatternLibrary, live: Seq<usize>, p: u8, j: int, c: usize)
    requires
        0 <= j < live.len(),
        spec_step(lib, live[j] as int, p) == Some(c),
    ensures
        next_live_of(lib, live, p).contains(c),
    decreases live.len(),
{
    let rest = live.drop_last();
    if j == live.len() - 1 {
        let nl = next_live_of(lib, live, p);
        assert(nl[next_live_of(lib, rest, p).len() as int] == c);
        assert(nl.contains(c));
    } else {
        assert(rest[j] == live[j]);
        lemma_step_live_membership(lib, rest, p, j, c);
        let k = choose|k: int|
            0 <= k < next_live_of(lib, rest, p).len() && next_live_of(lib, rest, p)[k] == c;
        assert(next_live_of(lib, live, p)[k] == c);
        assert(next_live_of(lib, live, p).contains(c));
    }
}

/// When the stepped-to child of a live node is marked, its action is
/// among the emissions.
proof fn lemma_step_emit_membership(lib: PatternLibrary, live: Seq<usize>, p: u8, j: int, c: usize, a: u32)
    requires
        0 <= j < live.len(),
        spec_step(lib, live[j] as int, p) == Some(c),
        lib.nodes@[c as int].action == Some(a),
    ensures
        emits_of(lib, live, p).contains(a),
    decreases live.len(),
{
    let rest = live.drop_last();
    if j == live.len() - 1 {
        let em = emits_of(lib, live, p);
        assert(em[emits_of(lib, rest, p).len() as int] == a);
        assert(em.contains(a));
    } else {
        assert(rest[j] == live[j]);
        lemma_step_emit_membership(lib, rest, p, j, c, a);
        let k = choose|k: int| 0 <= k < emits_of(lib, rest, p).len() && emits_of(lib, rest, p)[k] == a;
        assert(emits_of(lib, live, p)[k] == a);
        assert(emits_of(lib, live, p).contains(a));
    }
}

/// Lifts step membership to the full advance, which appends the root
/// attempt after the live-set contributions.
proof fn lemma_advance_live_membership(lib: PatternLibrary, live: Seq<usize>, p: u8, n: usize, c: usize)
    requires
        live.contains(n),
        spec_step(lib, n as int, p) == Some(c),
    ensures
        spec_advance_live(lib, live, p).contains(c),
{
    let j = choose|j: int| 0 <= j < live.len() && live[j] == n;
    lemma_step_live_membership(lib, live, p, j, c);
    let k = choose|k: int|
        0 <= k < next_live_of(lib, live, p).len() && next_live_of(lib, live, p)[k] == c;
    assert(spec_advance_live(lib, live, p)[k] == c);
    assert(spec_advance_live(lib, live, p).contains(c));
}

/// The emission of a live node's step is in the advance's emissions.
proof fn lemma_advance_emit_membership(lib: PatternLibrary, live: Seq<usize>, p: u8, n: usize, c: usize, a: u32)
    requires
        live.contains(n),
        spec_step(lib, n as int, p) == Some(c),
        lib.nodes@[c as int].action == Some(a),
    ensures
        spec_advance_emits(lib, live, p).contains(a),
{
    let j = choose|j: int| 0 <= j < live.len() && live[j] == n;
    lemma_step_emit_membership(lib, live, p, j, c, a);
    let k = choose|k: int| 0 <= k < emits_of(lib, live, p).len() && emits_of(lib, live, p)[k] == a;
    assert(spec_advance_emits(lib, live, p)[k] == a);
    assert(spec_advance_emits(lib, live, p).contains(a));
}

/// The root attempt's child is in the advance, and its emission among
/// the advance's emissions.
proof fn lemma_root_live_membership(lib: PatternLibrary, live: Seq<usize>, p: u8, c: usize)
    requires
        spec_step(lib, 0, p) == Some(c),
    ensures
        spec_advance_live(lib, live, p).contains(c),
{
    assert(spec_advance_live(lib, live, p)[next_live_of(lib, live, p).len() as int] == c);
    assert(spec_advance_live(lib, live, p).contains(c));
}

/// The root attempt's emission is among the advance's emissions.
proof fn lemma_root_emit_membership(lib: PatternLibrary, live: Seq<usize>, p: u8, c: usize, a: u32)
    requires
        spec_step(lib, 0, p) == Some(c),
        lib.nodes@[c as int].action == Some(a),
    ensures
        spec_advance_emits(lib, live, p).contains(a),
{
    assert(spec_advance_emits(lib, live, p)[emits_of(lib, live, p).len() as int] == a);
    assert(spec_advance_emits(lib, live, p).contains(a));
}

/// Once a node is live, pitches that walk a token path from it keep the
/// walk's end node live: partial matches in progress survive every
/// advance that their pattern allows.
pub proof fn lemma_live_after_run(lib: PatternLibrary, live: Seq<usize>, n: usize, ts: Seq<Token>, ps: Seq<u8>)
    requires
        lib.wf(),
        live.contains(n),
        0 <= (n as int) < lib.nodes@.len(),
        path_matches(lib, n as int, ts, ps),
        follow_tokens(lib, n as int, ts) is Some,
    ensures
        follow_tokens(lib, n as int, ts) matches Some(m)
            ==> run_live(lib, live, ps).contains(m as usize),
    decreases ts.len(),
{
    if ts.len() == 0 {
        assert(run_live(lib, live, ps) == live);
    } else {
        let c = alist_get(lib.nodes@[n as int].rulemap@, ts.first())->Some_0;
        lemma_alist_get_entry(lib.nodes@[n as int].rulemap@, ts.first(), c);
        lemma_advance_live_membership(lib, live, ps.first(), n, c);
        let live1 = spec_advance_live(lib, live, ps.first());
        assert(live1.contains(c));
        lemma_live_after_run(lib, live1, c, ts.drop_first(), ps.drop_first());
    }
}

/// Feeding the pitch walk of a pattern completes it from a live start
/// node: the pattern's action is among the emissions of the advance on
/// the walk's last pitch.
proof fn lemma_completion_from(lib: PatternLibrary, live: Seq<usize>, n: usize, ts: Seq<Token>, ps: Seq<u8>, a: u32)
    requires
        lib.wf(),
        live.contains(n),
        0 <= (n as int) < lib.nodes@.len(),
        path_matches(lib, n as int, ts, ps),
        ts.len() >= 1,
        follow_tokens(lib, n as int, ts) matches Some(m) && 0 <= m < lib.nodes@.len()
            && lib.nodes@[m].action == Some(a),
    ensures
        spec_advance_emits(lib, run_live(lib, live, ps.drop_last()), ps.last()).contains(a),
    decreases ts.len(),
{
    let c = alist_get(lib.nodes@[n as int].rulemap@, ts.first())->Some_0;
    lemma_alist_get_entry(lib.nodes@[n as int].rulemap@, ts.first(), c);
    if ts.len() == 1 {
        assert(ps.drop_last() =~= Seq::<u8>::empty());
        assert(run_live(lib, live, ps.drop_last()) == live);
        assert(follow_tokens(lib, c as int, ts.drop_first()) == Some(c as int));
        assert(ps.last() == ps.first());
        lemma_advance_emit_membership(lib, live, ps.last(), n, c, a);
    } else {
        let live1 = spec_advance_live(lib, live, ps.first());
        lemma_advance_live_membership(lib, live, ps.first(), n, c);
        assert(live1.contains(c));
        lemma_completion_from(lib, live1, c, ts.drop_first(), ps.drop_first(), a);
        assert(ps.drop_last().len() > 0);
        assert(ps.drop_last().first() == ps.first());
        assert(ps.drop_last().drop_first() =~= ps.drop_first().drop_last());
        assert(run_live(lib, live, ps.drop_last()) == run_live(lib, live1,
            ps.drop_first().drop_last()));
        assert(ps.drop_first().last() == ps.last());
    }
}

/// Completion of a configured pattern. Whatever the matcher's current
/// live set, feeding pitches that walk a pattern's token path from the
/// root emits that pattern's action on the final pitch: the fresh
/// attempt started at the first pitch carries through to the marker.
pub proof fn lemma_pattern_completion(lib: PatternLibrary, live0: Seq<usize>, ts: Seq<Token>, ps: Seq<u8>, a: u32)
    requires
        lib.wf(),
        path_matches(lib, 0, ts, ps),
        ts.len() >= 1,
        pattern_action(lib, ts) == Some(a),
    ensures
        spec_advance_emits(lib, run_live(lib, live0, ps.drop_last()), ps.last()).contains(a),
{
    let c = alist_get(lib.nodes@[0].rulemap@, ts.first())->Some_0;
    lemma_alist_get_entry(lib.nodes@[0].rulemap@, ts.first(), c);
    let m = follow_tokens(lib, 0, ts)->Some_0;
    if ts.len() == 1 {
        assert(ps.drop_last() =~= Seq::<u8>::empty());
        assert(run_live(lib, live0, ps.drop_last()) == live0);
        assert(follow_tokens(lib, c as int, ts.drop_first()) == Some(c as int));
        assert(ps.last() == ps.first());
        lemma_root_emit_membership(lib, live0, ps.last(), c, a);
    } else {
        let live1 = spec_advance_live(lib, live0, ps.first());
        lemma_root_live_membership(lib, live0, ps.first(), c);
        assert(live1.contains(c));
        lemma_completion_from(lib, live1, c, ts.drop_first(), ps.drop_first(), a);
        assert(ps.drop_last().len() > 0);
        assert(ps.drop_last().first() == ps.first());
        assert(ps.drop_last().drop_first() =~= ps.drop_first().drop_last());
        assert(run_live(lib, live0, ps.drop_last()) == run_live(lib, live1,
            ps.drop_first().drop_last()));
        assert(ps.drop_first().last() == ps.last());
    }
}

/// A pattern of concrete tokens walks on its own pitches: wherever its
/// path exists, the preference step takes exactly its edges, since a
/// concrete edge is always the preferred one.
pub proof fn lemma_concrete_path_matches(lib: PatternLibrary, n: int, ts: Seq<Token>, ps: Seq<u8>)
    requires
        lib.wf(),
        0 <= n < lib.nodes@.len(),
        ts.len() == ps.len(),
        forall|i: int| 0 <= i < ts.len() ==> (#[trigger] ts[i]) == Token::Pitch(ps[i]),
        follow_tokens(lib, n, ts) is Some,
    ensures
        path_matches(lib, n, ts, ps),
    decreases ts.len(),
{
    if ts.len() > 0 {
        assert(ts[0] == Token::Pitch(ps[0]));
        let c = alist_get(lib.nodes@[n].rulemap@, ts.first())->Some_0;
        lemma_alist_get_entry(lib.nodes@[n].rulemap@, ts.first(), c);
        assert(spec_step(lib, n, ps.first()) == alist_get(lib.nodes@[n].rulemap@, ts.first()));
        assert(forall|i: int| 0 <= i < ts.drop_first().len()
            ==> (#[trigger] ts.drop_first()[i]) == Token::Pitch(ps.drop_first()[i]));
        lemma_concrete_path_matches(lib, c as int, ts.drop_first(), ps.drop_first());
    }
}

/// Unrolls a matching walk to its `i`-th position: the walk has reached
/// the end of the `i`-token prefix, and its next preference step takes
/// the edge of token `i`.
pub proof fn lemma_path_matches_at(lib: PatternLibrary, n: int, ts: Seq<Token>, ps: Seq<u8>, i: int)
    requires
        lib.wf(),
        0 <= n < lib.nodes@.len(),
        path_matches(lib, n, ts, ps),
        0 <= i < ts.len(),
    ensures
        follow_tokens(lib, n, ts.take(i)) is Some,
        follow_tokens(lib, n, ts.take(i)) matches Some(q) ==> {
            &&& 0 <= q < lib.nodes@.len()
            &&& alist_get(lib.nodes@[q].rulemap@, ts[i]) is Some
            &&& spec_step(lib, q, ps[i]) == alist_get(lib.nodes@[q].rulemap@, ts[i])
            &&& follow_tokens(lib, n, ts.take(i + 1)) == opt_int(
                alist_get(lib.nodes@[q].rulemap@, ts[i]),
            )
        },
    decreases i,
{
    let c = alist_get(lib.nodes@[n].rulemap@, ts.first())->Some_0;
    lemma_alist_get_entry(lib.nodes@[n].rulemap@, ts.first(), c);
    if i == 0 {
        assert(ts.take(0) =~= Seq::<Token>::empty());
        assert(follow_tokens(lib, n, ts.take(0)) == Some(n));
        assert(ts.take(1).first() == ts[0]);
        assert(ts.take(1).drop_first() =~= Seq::<Token>::empty());
        assert(ts[0] == ts.first());
        assert(ps[0] == ps.first());
        assert(alist_get(lib.nodes@[n].rulemap@, ts[0]) is Some);
        assert(spec_step(lib, n, ps[0]) == alist_get(lib.nodes@[n].rulemap@, ts[0]));
        assert(follow_tokens(lib, n, ts.take(1)) == follow_tokens(lib, c as int,
            ts.take(1).drop_first()));
        assert(follow_tokens(lib, n, ts.take(1)) == Some(c as int));
    } else {
        lemma_path_matches_at(lib, c as int, ts.drop_first(), ps.drop_first(), i - 1);
        let q = follow_tokens(lib, c as int, ts.drop_first().take(i - 1))->Some_0;
        assert(ts.take(i).first() == ts.first());
        assert(ts.take(i).drop_first() =~= ts.drop_first().take(i - 1));
        assert(follow_tokens(lib, n, ts.take(i)) == follow_tokens(lib, c as int,
            ts.drop_first().take(i - 1)));
        assert(ts.drop_first()[i - 1] == ts[i]);
        assert(ps.drop_first()[i - 1] == ps[i]);
        assert(ts.take(i + 1).first() == ts.first());
        assert(ts.take(i + 1).drop_first() =~= ts.drop_first().take(i));
        assert(follow_tokens(lib, n, ts.take(i + 1)) == follow_tokens(lib, c as int,
            ts.drop_first().take(i)));
    }
}

/// No early completion from the walk itself: before its final pitch, a
/// matching walk steps only through nodes where no pattern ends, so the
/// attempt contributes no emission until the last step. Nodes where a
/// configured pattern does end — one whose tokens are a proper prefix
/// of the walked pattern — legitimately fire their own action early;
/// this speaks of every other position.
pub proof fn lemma_no_early_completion(lib: PatternLibrary, ts: Seq<Token>, ps: Seq<u8>, i: int)
    requires
        lib.wf(),
        path_matches(lib, 0, ts, ps),
        0 <= i < ts.len() - 1,
        pattern_action(lib, ts.take(i + 1)) is None,
    ensures
        follow_tokens(lib, 0, ts.take(i)) is Some,
        follow_tokens(lib, 0, ts.take(i)) matches Some(q) ==> step_emit(lib, q, ps[i])
            == Seq::<u32>::empty(),
{
    lemma_path_matches_at(lib, 0, ts, ps, i);
    let q = follow_tokens(lib, 0, ts.take(i))->Some_0;
    let c = alist_get(lib.nodes@[q].rulemap@, ts[i])->Some_0;
    lemma_alist_get_entry(lib.nodes@[q].rulemap@, ts[i], c);
    assert(follow_tokens(lib, 0, ts.take(i + 1)) == Some(c as int));
    assert(lib.nodes@[c as int].action is None);
}

} // verus!
