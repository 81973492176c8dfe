//! Deterministic finite automata built by multi-NFA subset construction.
//!
//! A DFA state is identified by its bundle: one set of NFA states per
//! source rule.  The builder simulates all NFAs in lockstep over the
//! printable ASCII alphabet `0x20..=0x7E`, deduplicates states on their
//! bundle, and labels each state with the winning (lowest-priority-value)
//! rule among those whose accept set the bundle intersects.

use vstd::prelude::*;
use vstd::set_lib::lemma_len_subset;
use crate::nfa::NFA;
use crate::nfa::StateSet;

verus! {

/// Identifier of a DFA state; states are dense integers.
#[derive(Debug, Clone, Copy, PartialEq, Eq, Structural, Hash)]
pub struct DFAStateId(pub usize);

/// A DFA state: its identity (one NFA state set per rule), whether it
/// accepts, and the winning rule if it does.
pub struct DFAState {
    pub nfa_states: Vec<StateSet>,
    pub is_accepting: bool,
    pub rule_index: Option<usize>,
}

/// A DFA: states, the start state, and one transition row per state with
/// an entry for each character of the printable ASCII alphabet.
pub struct DFA {
    pub states: Vec<DFAState>,
    pub start_state: DFAStateId,
    pub transitions: Vec<Vec<Option<usize>>>,
}

/// Size of the scanner alphabet: the printable ASCII range `0x20..=0x7E`.
pub const ALPHABET_SIZE: usize = 95;

/// The character at alphabet offset `ci`.
pub open spec fn alpha_char(ci: int) -> char {
    (32 + ci) as char
}

/// Whether `c` lies in the printable ASCII alphabet.
pub open spec fn in_alphabet(c: char) -> bool {
    32 <= (c as int) && (c as int) < 127
}

/// The alphabet offset of `c`.
pub open spec fn alpha_index(c: char) -> int {
    c as int - 32
}

/// Bundle shapes: one set per rule, each over its own NFA's state space.
pub open spec fn bundle_wf(sets: Seq<StateSet>, nfas: Seq<(NFA, usize)>) -> bool {
    &&& sets.len() == nfas.len()
    &&& forall|r: int|
        0 <= r < nfas.len() ==> (#[trigger] sets[r]).capacity() == nfas[r].0.state_count
}

/// Two bundles hold the same sets.
pub open spec fn bundles_eq(a: Seq<StateSet>, b: Seq<StateSet>) -> bool {
    &&& a.len() == b.len()
    &&& forall|r: int| 0 <= r < a.len() ==> (#[trigger] a[r]).bits@ == b[r].bits@
}

/// Rule `r`'s set in the bundle intersects rule `r`'s accept states.
pub open spec fn rule_hits(sets: Seq<StateSet>, nfas: Seq<(NFA, usize)>, r: int) -> bool {
    &&& 0 <= r < nfas.len()
    &&& exists|a: int| (#[trigger] sets[r]@.contains(a)) && nfas[r].0.accepts_state(a)
}

/// The acceptance labelling of a state is correct: it accepts exactly
/// when some rule hits, and the winning rule is the least rule value
/// among those that hit.
pub open spec fn accepting_ok(
    sets: Seq<StateSet>,
    nfas: Seq<(NFA, usize)>,
    is_acc: bool,
    rule: Option<usize>,
) -> bool {
    &&& is_acc == (rule is Some)
    &&& match rule {
        Option::None => forall|r: int| !(#[trigger] rule_hits(sets, nfas, r)),
        Option::Some(v) => {
            &&& exists|r: int| (#[trigger] rule_hits(sets, nfas, r)) && nfas[r].1 == v
            &&& forall|r: int| (#[trigger] rule_hits(sets, nfas, r)) ==> v <= nfas[r].1
        },
    }
}

/// The set a rule's NFA reaches from `from` over `c`: move, then closure.
pub open spec fn succ_set(nfa: NFA, from: Set<int>, c: char) -> Set<int> {
    nfa.eps_closure_spec(nfa.move_spec(from, c))
}

/// Every rule's move out of the bundle on `c` is empty.
pub open spec fn all_moves_empty(sets: Seq<StateSet>, c: char, nfas: Seq<(NFA, usize)>) -> bool {
    forall|r: int|
        0 <= r < nfas.len() ==> ((#[trigger] nfas[r]).0.move_spec(sets[r]@, c)).is_empty()
}

/// Some rule's move out of the bundle on `c` is non-empty.
pub open spec fn some_move_nonempty(sets: Seq<StateSet>, c: char, nfas: Seq<(NFA, usize)>) -> bool {
    exists|r: int|
        0 <= r < nfas.len() && !((#[trigger] nfas[r]).0.move_spec(sets[r]@, c)).is_empty()
}

/// The target bundle is, rule by rule, the closure of the move of the
/// source bundle.
pub open spec fn step_sets_ok(
    from: Seq<StateSet>,
    to: Seq<StateSet>,
    c: char,
    nfas: Seq<(NFA, usize)>,
) -> bool {
    forall|r: int| 0 <= r < nfas.len() ==> (#[trigger] to[r])@ == succ_set(nfas[r].0, from[r]@, c)
}

/// One transition-row entry is correct: present exactly when some move is
/// non-empty, and then leading to the state holding the successor bundle.
pub open spec fn entry_ok(
    states: Seq<DFAState>,
    from: Seq<StateSet>,
    c: char,
    entry: Option<usize>,
    nfas: Seq<(NFA, usize)>,
) -> bool {
    match entry {
        Option::Some(t) => {
            &&& 0 <= t < states.len()
            &&& some_move_nonempty(from, c, nfas)
            &&& step_sets_ok(from, states[t as int].nfa_states@, c, nfas)
        },
        Option::None => all_moves_empty(from, c, nfas),
    }
}

/// Row `s` is complete, and its entry for alphabet offset `ci` is correct.
pub open spec fn row_entry_holds(
    states: Seq<DFAState>,
    transitions: Seq<Vec<Option<usize>>>,
    s: int,
    ci: int,
    nfas: Seq<(NFA, usize)>,
) -> bool {
    &&& transitions[s]@.len() == 95
    &&& entry_ok(states, states[s].nfa_states@, alpha_char(ci), transitions[s]@[ci], nfas)
}

/// The first `processed` transition rows are complete and correct.
pub open spec fn rows_ok(
    states: Seq<DFAState>,
    transitions: Seq<Vec<Option<usize>>>,
    processed: int,
    nfas: Seq<(NFA, usize)>,
) -> bool {
    forall|s: int, ci: int|
        0 <= s < processed && 0 <= ci < 95 ==> #[trigger] row_entry_holds(
            states,
            transitions,
            s,
            ci,
            nfas,
        )
}

/// State 0 holds, rule by rule, the closure of that rule's start state.
pub open spec fn start_ok(states: Seq<DFAState>, nfas: Seq<(NFA, usize)>) -> bool {
    forall|r: int|
        0 <= r < nfas.len() ==> (#[trigger] states[0].nfa_states@[r])@ == nfas[r].0.eps_closure_spec(Set::empty().insert(nfas[r].0.start_state.0 as int))
}

/// No two states share a bundle.
pub open spec fn distinct_bundles(states: Seq<DFAState>) -> bool {
    forall|i: int, j: int|
        0 <= i < j < states.len() ==> !bundles_eq(
            (#[trigger] states[i]).nfa_states@,
            (#[trigger] states[j]).nfa_states@,
        )
}

/// The source NFAs are well formed and have non-empty state spaces, as
/// the data model requires (the start state is a state).
pub open spec fn nfas_wf(nfas: Seq<(NFA, usize)>) -> bool {
    forall|r: int|
        0 <= r < nfas.len() ==> (#[trigger] nfas[r]).0.wf() && nfas[r].0.state_count > 0
}

/// Some slot of a row before state `s` targets `s`.
pub open spec fn pending_parent(row: Seq<Option<usize>>, s: int) -> bool {
    exists|ci: int| 0 <= ci < row.len() && #[trigger] row[ci] == Option::Some(s as usize)
}

/// State `s` has an incoming transition from a lower-numbered state.
pub open spec fn has_parent(d: DFA, s: int) -> bool {
    exists|a: int, ci: int|
        0 <= a < s && a < d.transitions@.len() && 0 <= ci < 95 && #[trigger] d.transitions@[a]@[ci]
            == Option::Some(s as usize)
}

/// Every state but the start has an incoming transition from a
/// lower-numbered state, so every state is reachable from the start.
pub open spec fn parented(d: DFA) -> bool {
    forall|s: int| 1 <= s < d.states@.len() ==> #[trigger] has_parent(d, s)
}

/// `s` is reachable from the start state in at most `k` steps over the
/// transition table.
pub open spec fn reaches(d: DFA, s: int, k: nat) -> bool
    decreases k,
{
    if s == 0 {
        true
    } else if k == 0 {
        false
    } else {
        exists|a: int, ci: int|
            0 <= a && 0 <= ci < 95 && a < d.transitions@.len() && #[trigger] d.transitions@[a]@[ci]
                == Option::Some(s as usize) && reaches(d, a, (k - 1) as nat)
    }
}

/// More steps reach no fewer states.
proof fn lemma_reaches_mono(d: DFA, s: int, k1: nat, k2: nat)
    requires
        reaches(d, s, k1),
        k1 <= k2,
    ensures
        reaches(d, s, k2),
    decreases k1,
{
    if s != 0 {
        let (a, ci) = choose|a: int, ci: int|
            0 <= a && 0 <= ci < 95 && a < d.transitions@.len() && #[trigger] d.transitions@[a]@[ci]
                == Option::Some(s as usize) && reaches(d, a, (k1 - 1) as nat);
        lemma_reaches_mono(d, a, (k1 - 1) as nat, (k2 - 1) as nat);
    }
}

/// In a parented DFA every state is reachable from the start: each
/// state's parent chain descends through lower numbers to state 0.
pub proof fn lemma_parented_reachable(d: DFA, s: int)
    requires
        parented(d),
        0 <= s < d.states@.len(),
    ensures
        reaches(d, s, s as nat),
    decreases s,
{
    if s > 0 {
        assert(has_parent(d, s));
        let (a, ci) = choose|a: int, ci: int|
            0 <= a < s && a < d.transitions@.len() && 0 <= ci < 95 && #[trigger] d.transitions@[a]@[ci] == Option::Some(s as usize);
        lemma_parented_reachable(d, a);
        lemma_reaches_mono(d, a, a as nat, (s - 1) as nat);
    }
}

/// One DFA state has a well-shaped bundle and a correct acceptance label.
pub open spec fn state_ok(st: DFAState, nfas: Seq<(NFA, usize)>) -> bool {
    &&& bundle_wf(st.nfa_states@, nfas)
    &&& accepting_ok(st.nfa_states@, nfas, st.is_accepting, st.rule_index)
}

impl DFA {
    /// The subset construction invariant: the DFA faithfully simulates
    /// the given rule NFAs in lockstep.
    pub open spec fn subset_wf(&self, nfas: Seq<(NFA, usize)>) -> bool {
        &&& self.states@.len() >= 1
        &&& self.start_state.0 == 0
        &&& self.transitions@.len() == self.states@.len()
        &&& forall|s: int| 0 <= s < self.states@.len() ==> state_ok(#[trigger] self.states@[s], nfas)
        &&& rows_ok(self.states@, self.transitions@, self.states@.len() as int, nfas)
        &&& start_ok(self.states@, nfas)
        &&& distinct_bundles(self.states@)
    }
}

/// The bit rows of a bundle, outermost last.
pub open spec fn bundle_rep(sets: Seq<StateSet>) -> Seq<Seq<bool>>
    decreases sets.len(),
{
    if sets.len() == 0 {
        Seq::empty()
    } else {
        bundle_rep(sets.drop_last()).push(sets.last().bits@)
    }
}

/// `bundle_rep` is the row-by-row image of the bundle.
pub proof fn lemma_bundle_rep(sets: Seq<StateSet>)
    ensures
        bundle_rep(sets).len() == sets.len(),
        forall|r: int| 0 <= r < sets.len() ==> #[trigger] bundle_rep(sets)[r] == sets[r].bits@,
    decreases sets.len(),
{
    if sets.len() > 0 {
        lemma_bundle_rep(sets.drop_last());
        assert(forall|r: int|
            0 <= r < sets.len() - 1 ==> #[trigger] sets.drop_last()[r] == sets[r]);
    }
}

/// All possible bundle representations for the given rule NFAs.
pub open spec fn rep_space(nfas: Seq<(NFA, usize)>) -> Set<Seq<Seq<bool>>> {
    Set::new(
        |s: Seq<Seq<bool>>|
            s.len() == nfas.len() && forall|r: int|
                0 <= r < nfas.len() ==> (#[trigger] s[r]).len() == nfas[r].0.state_count,
    )
}

/// The boolean sequences of one fixed length form a finite set.
proof fn lemma_bool_seqs_finite(n: nat)
    ensures
        Set::new(|s: Seq<bool>| s.len() == n).finite(),
    decreases n,
{
    let sn = Set::new(|s: Seq<bool>| s.len() == n);
    if n == 0 {
        let single = Set::<Seq<bool>>::empty().insert(Seq::empty());
        assert forall|s: Seq<bool>| sn.contains(s) implies single.contains(s) by {
            assert(s =~= Seq::<bool>::empty());
        }
        assert(sn =~= single);
    } else {
        let m = (n - 1) as nat;
        let sp = Set::new(|s: Seq<bool>| s.len() == m);
        lemma_bool_seqs_finite(m);
        let ft = |s: Seq<bool>| s.push(true);
        let ff = |s: Seq<bool>| s.push(false);
        let st = sp.map(ft);
        let sf = sp.map(ff);
        sp.lemma_map_finite(ft);
        sp.lemma_map_finite(ff);
        assert forall|s: Seq<bool>| sn.contains(s) implies st.union(sf).contains(s) by {
            let y = s.drop_last();
            assert(sp.contains(y));
            assert(s =~= y.push(s.last()));
            if s.last() {
                assert(st.contains(ft(y)));
            } else {
                assert(sf.contains(ff(y)));
            }
        }
        assert forall|s: Seq<bool>| st.union(sf).contains(s) implies sn.contains(s) by {
            if st.contains(s) {
                let y = choose|y: Seq<bool>| sp.contains(y) && s == ft(y);
                assert(s.len() == n);
            } else {
                let y = choose|y: Seq<bool>| sp.contains(y) && s == ff(y);
                assert(s.len() == n);
            }
        }
        assert(sn =~= st.union(sf));
    }
}

/// The bundle representation space is finite, which bounds the number of
/// distinct DFA states and so makes the worklist terminate.
pub proof fn lemma_rep_space_finite(nfas: Seq<(NFA, usize)>)
    ensures
        rep_space(nfas).finite(),
    decreases nfas.len(),
{
    let space = rep_space(nfas);
    if nfas.len() == 0 {
        let single = Set::<Seq<Seq<bool>>>::empty().insert(Seq::empty());
        assert forall|s: Seq<Seq<bool>>| space.contains(s) implies single.contains(s) by {
            assert(s =~= Seq::<Seq<bool>>::empty());
        }
        assert(space =~= single);
    } else {
        let pre = nfas.drop_last();
        lemma_rep_space_finite(pre);
        let last_n = nfas.last().0.state_count as nat;
        let rows = Set::new(|s: Seq<bool>| s.len() == last_n);
        lemma_bool_seqs_finite(last_n);
        let fwd = |s: Seq<Seq<bool>>| rows.map(|t: Seq<bool>| s.push(t));
        let rev = |x: Seq<Seq<bool>>| x.drop_last();
        assert forall|a: Seq<Seq<bool>>| rep_space(pre).contains(a) implies (#[trigger] fwd(
            a,
        )).finite() by {
            rows.lemma_map_finite(|t: Seq<bool>| s_push(a, t));
            assert(rows.map(|t: Seq<bool>| s_push(a, t)) =~= fwd(a));
        }
        rep_space(pre).lemma_map_flatten_by_finite(fwd, rev);
        let image = rep_space(pre).map_flatten_by(fwd, rev);
        assert forall|x: Seq<Seq<bool>>| space.contains(x) implies image.contains(x) by {
            let y = x.drop_last();
            assert(nfas.last() == nfas[nfas.len() - 1]);
            assert forall|r: int| 0 <= r < pre.len() implies (#[trigger] y[r]).len() == pre[r].0.state_count by {
                assert(y[r] == x[r]);
                assert(pre[r] == nfas[r]);
            }
            assert(rep_space(pre).contains(y));
            assert(x[nfas.len() - 1].len() == last_n);
            assert(rows.contains(x.last()));
            assert(x =~= y.push(x.last()));
            assert(fwd(y).contains(y.push(x.last())));
            assert(rev(x) == y);
        }
        assert forall|x: Seq<Seq<bool>>| image.contains(x) implies space.contains(x) by {
            let y = rev(x);
            assert(rep_space(pre).contains(y));
            assert(fwd(y).contains(x));
            let t = choose|t: Seq<bool>| rows.contains(t) && x == y.push(t);
            assert(x.len() == nfas.len());
            assert forall|r: int| 0 <= r < nfas.len() implies (#[trigger] x[r]).len() == nfas[r].0.state_count by {
                if r < nfas.len() - 1 {
                    assert(x[r] == y[r]);
                    assert(pre[r] == nfas[r]);
                } else {
                    assert(x[r] == t);
                    assert(nfas.last() == nfas[r]);
                }
            }
        }
        assert(space =~= image);
    }
}

/// Helper for a map closure: push one row onto a representation.
pub open spec fn s_push(a: Seq<Seq<bool>>, t: Seq<bool>) -> Seq<Seq<bool>> {
    a.push(t)
}

/// An entry stays correct when states are only appended.
proof fn lemma_entry_ok_stable(
    states1: Seq<DFAState>,
    states2: Seq<DFAState>,
    from: Seq<StateSet>,
    c: char,
    entry: Option<usize>,
    nfas: Seq<(NFA, usize)>,
)
    requires
        entry_ok(states1, from, c, entry, nfas),
        states1.len() <= states2.len(),
        forall|k: int| 0 <= k < states1.len() ==> states2[k] == states1[k],
    ensures
        entry_ok(states2, from, c, entry, nfas),
{
    match entry {
        Option::Some(t) => {
            assert(states2[t as int] == states1[t as int]);
        },
        Option::None => {},
    }
}

/// Completed rows stay correct when states are only appended.
proof fn lemma_rows_ok_stable(
    states1: Seq<DFAState>,
    states2: Seq<DFAState>,
    transitions: Seq<Vec<Option<usize>>>,
    processed: int,
    nfas: Seq<(NFA, usize)>,
)
    requires
        rows_ok(states1, transitions, processed, nfas),
        processed <= states1.len(),
        states1.len() <= states2.len(),
        forall|k: int| 0 <= k < states1.len() ==> states2[k] == states1[k],
    ensures
        rows_ok(states2, transitions, processed, nfas),
{
    assert forall|s: int, ci: int| 0 <= s < processed && 0 <= ci < 95 implies #[trigger]
    row_entry_holds(states2, transitions, s, ci, nfas) by {
        assert(row_entry_holds(states1, transitions, s, ci, nfas));
        assert(states2[s] == states1[s]);
        lemma_entry_ok_stable(
            states1,
            states2,
            states1[s].nfa_states@,
            alpha_char(ci),
            transitions[s]@[ci],
            nfas,
        );
    }
}

/// Elementwise copy of a bundle.
fn clone_bundle(b: &Vec<StateSet>) -> (r: Vec<StateSet>)
    ensures
        r@.len() == b@.len(),
        forall|i: int| 0 <= i < b@.len() ==> (#[trigger] r@[i]).bits@ == b@[i].bits@,
{
    let mut r: Vec<StateSet> = Vec::new();
    let mut i: usize = 0;
    while i < b.len()
        invariant
            i <= b@.len(),
            r@.len() == i,
            forall|j: int| 0 <= j < i ==> (#[trigger] r@[j]).bits@ == b@[j].bits@,
        decreases b@.len() - i,
    {
        r.push(b[i].duplicate());
        i = i + 1;
    }
    r
}

/// Structural equality of two bundles.
fn bundles_equal(a: &Vec<StateSet>, b: &Vec<StateSet>) -> (r: bool)
    ensures
        r == bundles_eq(a@, b@),
{
    if a.len() != b.len() {
        return false;
    }
    let mut i: usize = 0;
    while i < a.len()
        invariant
            i <= a@.len(),
            a@.len() == b@.len(),
            forall|j: int| 0 <= j < i ==> (#[trigger] a@[j]).bits@ == b@[j].bits@,
        decreases a@.len() - i,
    {
        if !a[i].set_eq(&b[i]) {
            return false;
        }
        i = i + 1;
    }
    true
}

/// Whether some rule of the given bundle hits its accept set, and the
/// least rule value among those that do.
fn check_accepting(nfa_states: &Vec<StateSet>, nfas: &Vec<(NFA, usize)>) -> (res: (
    bool,
    Option<usize>,
))
    requires
        nfa_states@.len() == nfas@.len(),
    ensures
        accepting_ok(nfa_states@, nfas@, res.0, res.1),
{
    let mut best: Option<usize> = None;
    let mut i: usize = 0;
    while i < nfas.len()
        invariant
            nfa_states@.len() == nfas@.len(),
            i <= nfas@.len(),
            match best {
                Option::None => forall|r: int| r < i ==> !(#[trigger] rule_hits(
                    nfa_states@,
                    nfas@,
                    r,
                )),
                Option::Some(v) => {
                    &&& exists|r: int|
                        0 <= r < i && (#[trigger] rule_hits(nfa_states@, nfas@, r)) && nfas@[r].1
                            == v
                    &&& forall|r: int|
                        r < i && (#[trigger] rule_hits(nfa_states@, nfas@, r)) ==> v <= nfas@[r].1
                },
            },
        decreases nfas@.len() - i,
    {
        let mut hit = false;
        let mut k: usize = 0;
        while k < nfas[i].0.accept_states.len()
            invariant
                nfa_states@.len() == nfas@.len(),
                i < nfas@.len(),
                k <= nfas@[i as int].0.accept_states@.len(),
                !hit ==> forall|k2: int|
                    0 <= k2 < k ==> !nfa_states@[i as int]@.contains(
                        (#[trigger] nfas@[i as int].0.accept_states@[k2]).0 as int,
                    ),
                hit ==> rule_hits(nfa_states@, nfas@, i as int),
            decreases nfas@[i as int].0.accept_states@.len() - k,
        {
            if !hit {
                if nfa_states[i].contains(nfas[i].0.accept_states[k].0) {
                    proof {
                        assert(nfas@[i as int].0.accepts_state(
                            nfas@[i as int].0.accept_states@[k as int].0 as int,
                        ));
                    }
                    hit = true;
                }
            }
            k = k + 1;
        }
        if !hit {
            proof {
                assert forall|a: int|
                    nfa_states@[i as int]@.contains(a) implies !nfas@[i as int].0.accepts_state(
                    a,
                ) by {
                    if nfas@[i as int].0.accepts_state(a) {
                        let k2 = choose|k2: int|
                            0 <= k2 < nfas@[i as int].0.accept_states@.len() && (
                            #[trigger] nfas@[i as int].0.accept_states@[k2]).0 == a;
                        assert(false);
                    }
                }
                assert(!rule_hits(nfa_states@, nfas@, i as int));
            }
        }
        if hit {
            let value = nfas[i].1;
            best = match best {
                Option::None => Option::Some(value),
                Option::Some(v) => if value < v {
                    Option::Some(value)
                } else {
                    Option::Some(v)
                },
            };
        }
        i = i + 1;
    }
    proof {
        match best {
            Option::None => {
                assert forall|r: int| !(#[trigger] rule_hits(nfa_states@, nfas@, r)) by {
                    if 0 <= r < nfas@.len() {
                        assert(!rule_hits(nfa_states@, nfas@, r));
                    }
                }
            },
            Option::Some(v) => {
                assert forall|r: int| (#[trigger] rule_hits(nfa_states@, nfas@, r)) implies v
                    <= nfas@[r].1 by {}
            },
        }
    }
    (best.is_some(), best)
}

impl DFA {
    /// Looks up the state holding the given bundle, creating and
    /// labelling it if no state holds it yet.
    fn find_or_create_state(&mut self, nfa_states: Vec<StateSet>, nfas: &Vec<(NFA, usize)>) -> (res:
        usize)
        requires
            nfa_states@.len() == nfas@.len(),
        ensures
            final(self).start_state == old(self).start_state,
            final(self).transitions@ == old(self).transitions@,
            old(self).states@.len() <= final(self).states@.len(),
            forall|k: int|
                0 <= k < old(self).states@.len() ==> final(self).states@[k] == old(self).states@[k],
            res < final(self).states@.len(),
            bundles_eq(final(self).states@[res as int].nfa_states@, nfa_states@),
            final(self).states@.len() == old(self).states@.len() || final(self).states@.len()
                == old(self).states@.len() + 1,
            final(self).states@.len() == old(self).states@.len() ==> res < old(
                self,
            ).states@.len(),
            final(self).states@.len() == old(self).states@.len() + 1 ==> {
                &&& res == old(self).states@.len()
                &&& final(self).states@[res as int].nfa_states@ == nfa_states@
                &&& accepting_ok(
                    nfa_states@,
                    nfas@,
                    final(self).states@[res as int].is_accepting,
                    final(self).states@[res as int].rule_index,
                )
                &&& forall|k: int|
                    0 <= k < old(self).states@.len() ==> !bundles_eq(
                        (#[trigger] old(self).states@[k]).nfa_states@,
                        nfa_states@,
                    )
            },
    {
        let mut k: usize = 0;
        while k < self.states.len()
            invariant
                k <= self.states@.len(),
                forall|k2: int|
                    0 <= k2 < k ==> !bundles_eq(
                        (#[trigger] self.states@[k2]).nfa_states@,
                        nfa_states@,
                    ),
            decreases self.states@.len() - k,
        {
            if bundles_equal(&self.states[k].nfa_states, &nfa_states) {
                return k;
            }
            k = k + 1;
        }
        let (is_accepting, rule_index) = check_accepting(&nfa_states, nfas);
        let res = self.states.len();
        self.states.push(DFAState { nfa_states, is_accepting, rule_index });
        proof {
            assert(bundles_eq(
                self.states@[res as int].nfa_states@,
                self.states@[res as int].nfa_states@,
            ));
        }
        res
    }

    /// Builds the DFA that simulates all rule NFAs in lockstep: the
    /// worklist subset construction, deduplicating states
    /// on their bundle and labelling each with its winning rule.
    pub fn from_nfas(nfas: Vec<(NFA, usize)>) -> (r: DFA)
        requires
            nfas_wf(nfas@),
        ensures
            r.subset_wf(nfas@),
            parented(r),
    {
        let mut start_sets: Vec<StateSet> = Vec::new();
        let mut ri: usize = 0;
        while ri < nfas.len()
            invariant
                nfas_wf(nfas@),
                ri <= nfas@.len(),
                start_sets@.len() == ri,
                forall|q: int|
                    0 <= q < ri ==> (#[trigger] start_sets@[q]).capacity()
                        == nfas@[q].0.state_count,
                forall|q: int|
                    0 <= q < ri ==> (#[trigger] start_sets@[q])@ == nfas@[q].0.eps_closure_spec(
                        Set::empty().insert(nfas@[q].0.start_state.0 as int),
                    ),
            decreases nfas@.len() - ri,
        {
            let count = nfas[ri].0.state_count;
            let mut s = StateSet::new(count);
            s.insert(nfas[ri].0.start_state.0);
            let cl = nfas[ri].0.epsilon_closure(&s);
            start_sets.push(cl);
            ri = ri + 1;
        }
        let (acc0, rule0) = check_accepting(&start_sets, &nfas);
        let ghost rep0 = bundle_rep(start_sets@);
        let mut state_list: Vec<DFAState> = Vec::new();
        state_list.push(DFAState { nfa_states: start_sets, is_accepting: acc0, rule_index: rule0 });
        let mut dfa = DFA { states: state_list, start_state: DFAStateId(0), transitions: Vec::new() };
        let ghost mut used = Set::<Seq<Seq<bool>>>::empty().insert(rep0);
        proof {
            lemma_bundle_rep(dfa.states@[0].nfa_states@);
            lemma_rep_space_finite(nfas@);
            assert(rep_space(nfas@).contains(rep0));
            assert(used.subset_of(rep_space(nfas@)));
            lemma_len_subset(used, rep_space(nfas@));
        }
        let mut processed: usize = 0;
        while processed < dfa.states.len()
            invariant
                nfas_wf(nfas@),
                dfa.start_state.0 == 0,
                1 <= dfa.states@.len(),
                dfa.transitions@.len() == processed,
                processed <= dfa.states@.len(),
                forall|s: int|
                    0 <= s < dfa.states@.len() ==> state_ok(#[trigger] dfa.states@[s], nfas@),
                rows_ok(dfa.states@, dfa.transitions@, processed as int, nfas@),
                start_ok(dfa.states@, nfas@),
                distinct_bundles(dfa.states@),
                used.finite(),
                used.len() == dfa.states@.len(),
                used.subset_of(rep_space(nfas@)),
                forall|x: Seq<Seq<bool>>| #[trigger]
                    used.contains(x) ==> exists|kk: int|
                        0 <= kk < dfa.states@.len() && bundle_rep(
                            (#[trigger] dfa.states@[kk]).nfa_states@,
                        ) == x,
                rep_space(nfas@).finite(),
                dfa.states@.len() <= rep_space(nfas@).len(),
                forall|s: int| 1 <= s < dfa.states@.len() ==> #[trigger] has_parent(dfa, s),
            decreases rep_space(nfas@).len() - processed,
        {
            let cur = clone_bundle(&dfa.states[processed].nfa_states);
            let ghost from_bundle = dfa.states@[processed as int].nfa_states@;
            proof {
                assert(state_ok(dfa.states@[processed as int], nfas@));
                assert forall|q: int| 0 <= q < nfas@.len() implies (#[trigger] cur@[q])@
                    == from_bundle[q]@ && cur@[q].capacity() == nfas@[q].0.state_count by {
                    assert(cur@[q].bits@ == from_bundle[q].bits@);
                    assert(from_bundle[q].capacity() == nfas@[q].0.state_count);
                    assert(cur@[q]@ =~= from_bundle[q]@);
                }
            }
            let mut row: Vec<Option<usize>> = Vec::new();
            let mut ci: usize = 0;
            while ci < ALPHABET_SIZE
                invariant
                    nfas_wf(nfas@),
                    dfa.start_state.0 == 0,
                    1 <= dfa.states@.len(),
                    dfa.transitions@.len() == processed,
                    processed < dfa.states@.len(),
                    forall|s: int|
                        0 <= s < dfa.states@.len() ==> state_ok(#[trigger] dfa.states@[s], nfas@),
                    rows_ok(dfa.states@, dfa.transitions@, processed as int, nfas@),
                    start_ok(dfa.states@, nfas@),
                    distinct_bundles(dfa.states@),
                    used.finite(),
                    used.len() == dfa.states@.len(),
                    used.subset_of(rep_space(nfas@)),
                    forall|x: Seq<Seq<bool>>| #[trigger]
                        used.contains(x) ==> exists|kk: int|
                            0 <= kk < dfa.states@.len() && bundle_rep(
                                (#[trigger] dfa.states@[kk]).nfa_states@,
                            ) == x,
                    rep_space(nfas@).finite(),
                    dfa.states@.len() <= rep_space(nfas@).len(),
                    from_bundle == dfa.states@[processed as int].nfa_states@,
                    cur@.len() == nfas@.len(),
                    forall|q: int|
                        0 <= q < nfas@.len() ==> (#[trigger] cur@[q])@ == from_bundle[q]@
                            && cur@[q].capacity() == nfas@[q].0.state_count,
                    ci <= 95,
                    row@.len() == ci,
                    forall|c2: int|
                        0 <= c2 < ci ==> entry_ok(
                            dfa.states@,
                            from_bundle,
                            alpha_char(c2),
                            #[trigger] row@[c2],
                            nfas@,
                        ),
                    forall|s: int|
                        1 <= s < dfa.states@.len() ==> #[trigger] has_parent(dfa, s) || ((
                        processed as int) < s && pending_parent(row@, s)),
                decreases 95 - ci,
            {
                let ch_u8: u8 = (32 + ci) as u8;
                let ch = ch_u8 as char;
                proof {
                    assert(ch == alpha_char(ci as int));
                }
                let mut next_sets: Vec<StateSet> = Vec::new();
                let mut any = false;
                let mut rr: usize = 0;
                while rr < nfas.len()
                    invariant
                        nfas_wf(nfas@),
                        cur@.len() == nfas@.len(),
                        forall|q: int|
                            0 <= q < nfas@.len() ==> (#[trigger] cur@[q]).capacity() == nfas@[q].0.state_count,
                        rr <= nfas@.len(),
                        next_sets@.len() == rr,
                        forall|q: int|
                            0 <= q < rr ==> (#[trigger] next_sets@[q]).capacity() == nfas@[q].0.state_count,
                        forall|q: int|
                            0 <= q < rr ==> (#[trigger] next_sets@[q])@ == succ_set(
                                nfas@[q].0,
                                cur@[q]@,
                                ch,
                            ),
                        any == exists|q: int|
                            0 <= q < rr && !((#[trigger] nfas@[q]).0.move_spec(
                                cur@[q]@,
                                ch,
                            )).is_empty(),
                    decreases nfas@.len() - rr,
                {
                    let moved = nfas[rr].0.move_on_char(&cur[rr], ch);
                    if moved.is_empty() {
                        let e = StateSet::new(nfas[rr].0.state_count);
                        proof {
                            nfas@[rr as int].0.lemma_empty_closure(ch);
                            assert(moved@ =~= Set::<int>::empty());
                            assert(e@ == succ_set(nfas@[rr as int].0, cur@[rr as int]@, ch));
                        }
                        next_sets.push(e);
                    } else {
                        let cl = nfas[rr].0.epsilon_closure(&moved);
                        next_sets.push(cl);
                        any = true;
                        proof {
                            assert(!(nfas@[rr as int].0.move_spec(
                                cur@[rr as int]@,
                                ch,
                            )).is_empty());
                        }
                    }
                    rr = rr + 1;
                }
                if any {
                    let ghost ns = next_sets@;
                    let ghost old_states = dfa.states@;
                    let ghost entry_dfa = dfa;
                    let t = dfa.find_or_create_state(next_sets, &nfas);
                    proof {
                        if dfa.states@.len() == old_states.len() + 1 {
                            let rep = bundle_rep(ns);
                            lemma_bundle_rep(ns);
                            if used.contains(rep) {
                                let kk = choose|kk: int|
                                    0 <= kk < old_states.len() && bundle_rep(
                                        (#[trigger] old_states[kk]).nfa_states@,
                                    ) == rep;
                                lemma_bundle_rep(old_states[kk].nfa_states@);
                                assert(old_states[kk].nfa_states@.len() == ns.len());
                                assert forall|q: int| 0 <= q < ns.len() implies (
                                #[trigger] old_states[kk].nfa_states@[q]).bits@
                                    == ns[q].bits@ by {
                                    assert(bundle_rep(old_states[kk].nfa_states@)[q]
                                        == old_states[kk].nfa_states@[q].bits@);
                                    assert(bundle_rep(ns)[q] == ns[q].bits@);
                                }
                                assert(bundles_eq(old_states[kk].nfa_states@, ns));
                                assert(false);
                            }
                            assert(rep_space(nfas@).contains(rep));
                            used = used.insert(rep);
                            lemma_len_subset(used, rep_space(nfas@));
                            lemma_rows_ok_stable(
                                old_states,
                                dfa.states@,
                                dfa.transitions@,
                                processed as int,
                                nfas@,
                            );
                            assert(state_ok(dfa.states@[old_states.len() as int], nfas@));
                            assert forall|s: int|
                                0 <= s < dfa.states@.len() implies state_ok(
                                #[trigger] dfa.states@[s],
                                nfas@,
                            ) by {
                                if s < old_states.len() {
                                    assert(dfa.states@[s] == old_states[s]);
                                }
                            }
                            assert forall|x: Seq<Seq<bool>>| #[trigger]
                                used.contains(x) implies exists|kk: int|
                                0 <= kk < dfa.states@.len() && bundle_rep(
                                    (#[trigger] dfa.states@[kk]).nfa_states@,
                                ) == x by {
                                if x == rep {
                                    assert(dfa.states@[old_states.len() as int].nfa_states@ == ns);
                                } else {
                                    let kk = choose|kk: int|
                                        0 <= kk < old_states.len() && bundle_rep(
                                            (#[trigger] old_states[kk]).nfa_states@,
                                        ) == x;
                                    assert(dfa.states@[kk] == old_states[kk]);
                                }
                            }
                            assert(start_ok(dfa.states@, nfas@)) by {
                                assert(dfa.states@[0] == old_states[0]);
                            }
                            assert(distinct_bundles(dfa.states@)) by {
                                assert forall|i: int, j: int|
                                    0 <= i < j < dfa.states@.len() implies !bundles_eq(
                                    (#[trigger] dfa.states@[i]).nfa_states@,
                                    (#[trigger] dfa.states@[j]).nfa_states@,
                                ) by {
                                    if j < old_states.len() {
                                        assert(dfa.states@[i] == old_states[i]);
                                        assert(dfa.states@[j] == old_states[j]);
                                    } else {
                                        assert(dfa.states@[i] == old_states[i]);
                                        assert(dfa.states@[j].nfa_states@ == ns);
                                    }
                                }
                            }
                        } else {
                            assert(dfa.states@ =~= old_states);
                        }
                        assert forall|c2: int| 0 <= c2 < ci implies entry_ok(
                            dfa.states@,
                            from_bundle,
                            alpha_char(c2),
                            #[trigger] row@[c2],
                            nfas@,
                        ) by {
                            lemma_entry_ok_stable(
                                old_states,
                                dfa.states@,
                                from_bundle,
                                alpha_char(c2),
                                row@[c2],
                                nfas@,
                            );
                        }
                        // The new entry is correct: the move is somewhere
                        // non-empty and the target holds the successor bundle.
                        assert(entry_ok(dfa.states@, from_bundle, ch, Option::Some(t), nfas@)) by {
                            assert(some_move_nonempty(from_bundle, ch, nfas@)) by {
                                let q = choose|q: int|
                                    0 <= q < nfas@.len() && !((#[trigger] nfas@[q]).0.move_spec(
                                        cur@[q]@,
                                        ch,
                                    )).is_empty();
                                assert(cur@[q]@ == from_bundle[q]@);
                            }
                            assert(step_sets_ok(
                                from_bundle,
                                dfa.states@[t as int].nfa_states@,
                                ch,
                                nfas@,
                            )) by {
                                assert(bundles_eq(dfa.states@[t as int].nfa_states@, ns));
                                assert forall|q: int| 0 <= q < nfas@.len() implies (
                                #[trigger] dfa.states@[t as int].nfa_states@[q])@ == succ_set(
                                    nfas@[q].0,
                                    from_bundle[q]@,
                                    ch,
                                ) by {
                                    assert(dfa.states@[t as int].nfa_states@[q].bits@
                                        == ns[q].bits@);
                                    assert(dfa.states@[t as int].nfa_states@[q]@ =~= ns[q]@);
                                    assert(ns[q]@ == succ_set(nfas@[q].0, cur@[q]@, ch));
                                    assert(cur@[q]@ == from_bundle[q]@);
                                }
                            }
                        }
                    }
                    let ghost old_row = row@;
                    row.push(Option::Some(t));
                    proof {
                        assert forall|s: int| 1 <= s < dfa.states@.len() implies #[trigger]
                        has_parent(dfa, s) || ((processed as int) < s && pending_parent(
                            row@,
                            s,
                        )) by {
                            if s == old_states.len() && dfa.states@.len() == old_states.len() + 1 {
                                assert(row@[old_row.len() as int] == Option::Some(s as usize));
                                assert(pending_parent(row@, s));
                                assert((processed as int) < s);
                            } else {
                                assert(s < old_states.len());
                                if has_parent(entry_dfa, s) {
                                    let (a, ci2) = choose|a: int, ci2: int|
                                        0 <= a < s && a < entry_dfa.transitions@.len() && 0 <= ci2
                                            < 95 && (#[trigger] entry_dfa.transitions@[a]@[ci2])
                                            == Option::Some(s as usize);
                                    assert(dfa.transitions@ == entry_dfa.transitions@);
                                    assert(has_parent(dfa, s));
                                } else {
                                    assert(pending_parent(old_row, s));
                                    let ci2 = choose|ci2: int|
                                        0 <= ci2 < old_row.len() && #[trigger] old_row[ci2]
                                            == Option::Some(s as usize);
                                    assert(row@[ci2] == Option::Some(s as usize));
                                }
                            }
                        }
                    }
                } else {
                    proof {
                        assert(all_moves_empty(from_bundle, ch, nfas@)) by {
                            assert forall|q: int| 0 <= q < nfas@.len() implies ((
                            #[trigger] nfas@[q]).0.move_spec(from_bundle[q]@, ch)).is_empty() by {
                                assert(cur@[q]@ == from_bundle[q]@);
                                assert(!(exists|q2: int|
                                    0 <= q2 < nfas@.len() && !((#[trigger] nfas@[q2]).0.move_spec(
                                        cur@[q2]@,
                                        ch,
                                    )).is_empty()));
                            }
                        }
                        assert(entry_ok(dfa.states@, from_bundle, ch, Option::None, nfas@));
                    }
                    let ghost old_row = row@;
                    row.push(Option::None);
                    proof {
                        assert forall|s: int| 1 <= s < dfa.states@.len() implies #[trigger]
                        has_parent(dfa, s) || ((processed as int) < s && pending_parent(
                            row@,
                            s,
                        )) by {
                            if !has_parent(dfa, s) {
                                assert(pending_parent(old_row, s));
                                let ci2 = choose|ci2: int|
                                    0 <= ci2 < old_row.len() && #[trigger] old_row[ci2]
                                        == Option::Some(s as usize);
                                assert(row@[ci2] == Option::Some(s as usize));
                            }
                        }
                    }
                }
                ci = ci + 1;
            }
            let ghost old_transitions = dfa.transitions@;
            let ghost pre_dfa = dfa;
            dfa.transitions.push(row);
            proof {
                assert forall|s: int, c2: int|
                    0 <= s < processed + 1 && 0 <= c2 < 95 implies #[trigger] row_entry_holds(
                    dfa.states@,
                    dfa.transitions@,
                    s,
                    c2,
                    nfas@,
                ) by {
                    if s < processed {
                        assert(row_entry_holds(dfa.states@, old_transitions, s, c2, nfas@));
                        assert(dfa.transitions@[s] == old_transitions[s]);
                    } else {
                        assert(dfa.transitions@[s] == row);
                        assert(entry_ok(dfa.states@, from_bundle, alpha_char(c2), row@[c2], nfas@));
                    }
                }
                assert forall|s: int| 1 <= s < dfa.states@.len() implies #[trigger] has_parent(
                    dfa,
                    s,
                ) by {
                    if has_parent(pre_dfa, s) {
                        let (a, ci2) = choose|a: int, ci2: int|
                            0 <= a < s && a < pre_dfa.transitions@.len() && 0 <= ci2 < 95 && (
                            #[trigger] pre_dfa.transitions@[a]@[ci2]) == Option::Some(s as usize);
                        assert(dfa.transitions@[a] == pre_dfa.transitions@[a]);
                    } else {
                        assert((processed as int) < s && pending_parent(row@, s));
                        let ci2 = choose|ci2: int|
                            0 <= ci2 < row@.len() && #[trigger] row@[ci2] == Option::Some(
                                s as usize,
                            );
                        assert(dfa.transitions@[processed as int]@[ci2] == Option::Some(
                            s as usize,
                        ));
                    }
                }
            }
            processed = processed + 1;
        }
        dfa
    }
}

/// 1-based line number after consuming the first `p` characters: one more
/// than the number of newlines among them.
pub open spec fn line_of(input: Seq<char>, p: int) -> int
    decreases p,
{
    if p <= 0 {
        1
    } else {
        line_of(input, p - 1) + if input[p - 1] == '\n' {
            1int
        } else {
            0int
        }
    }
}

/// 1-based column after consuming the first `p` characters: one more than
/// the number of characters since the last newline.
pub open spec fn col_of(input: Seq<char>, p: int) -> int
    decreases p,
{
    if p <= 0 {
        1
    } else if input[p - 1] == '\n' {
        1
    } else {
        col_of(input, p - 1) + 1
    }
}

impl DFA {
    /// The transition table is complete: one full row per state, every
    /// target a state.  This is what the scanner needs of a DFA.
    pub open spec fn table_wf(&self) -> bool {
        &&& self.states@.len() >= 1
        &&& self.start_state.0 == 0
        &&& self.transitions@.len() == self.states@.len()
        &&& forall|s: int|
            0 <= s < self.states@.len() ==> (#[trigger] self.transitions@[s])@.len() == 95
        &&& forall|s: int, ci: int|
            0 <= s < self.states@.len() && 0 <= ci < 95 ==> match (
            #[trigger] self.transitions@[s]@[ci]) {
                Option::Some(t) => t < self.states@.len(),
                Option::None => true,
            }
    }

    /// Totality on the alphabet: a built DFA's transition function is,
    /// for every state and every printable character, either defined with
    /// a valid target state or undefined -- nothing in between.
    pub proof fn lemma_subset_wf_table(&self, nfas: Seq<(NFA, usize)>)
        requires
            self.subset_wf(nfas),
        ensures
            self.table_wf(),
    {
        assert forall|s: int| 0 <= s < self.states@.len() implies (
        #[trigger] self.transitions@[s])@.len() == 95 by {
            assert(row_entry_holds(self.states@, self.transitions@, s, 0, nfas));
        }
        assert forall|s: int, ci: int|
            0 <= s < self.states@.len() && 0 <= ci < 95 implies match (
        #[trigger] self.transitions@[s]@[ci]) {
            Option::Some(t) => t < self.states@.len(),
            Option::None => true,
        } by {
            assert(row_entry_holds(self.states@, self.transitions@, s, ci, nfas));
        }
    }

    /// One scanner step from state `s` on character `c`: the table entry
    /// for printable characters, undefined for everything else.
    pub open spec fn step(&self, s: int, c: char) -> Option<int> {
        if in_alphabet(c) {
            match self.transitions@[s]@[alpha_index(c)] {
                Option::Some(t) => Option::Some(t as int),
                Option::None => Option::None,
            }
        } else {
            Option::None
        }
    }

    /// The state reached from the start state after consuming `i`
    /// characters of `input` beginning at `pos`, or `None` if the run died.
    pub open spec fn run_from(&self, input: Seq<char>, pos: int, i: int) -> Option<int>
        decreases i,
    {
        if i <= 0 {
            Option::Some(0)
        } else {
            match self.run_from(input, pos, i - 1) {
                Option::None => Option::None,
                Option::Some(s) => self.step(s, input[pos + i - 1]),
            }
        }
    }

    /// The run over the first `l` characters from `pos` ends in an
    /// accepting state.
    pub open spec fn accepts_from(&self, input: Seq<char>, pos: int, l: int) -> bool {
        match self.run_from(input, pos, l) {
            Option::Some(s) => self.states@[s].is_accepting,
            Option::None => false,
        }
    }

    /// The greatest `l <= hi` whose run from `pos` is accepted, if any.
    pub open spec fn best_upto(&self, input: Seq<char>, pos: int, hi: int) -> Option<int>
        decreases hi + 1,
    {
        if hi < 0 {
            Option::None
        } else if self.accepts_from(input, pos, hi) {
            Option::Some(hi)
        } else {
            self.best_upto(input, pos, hi - 1)
        }
    }

    /// The winning rule of the state reached after `l` characters.
    pub open spec fn rule_at(&self, input: Seq<char>, pos: int, l: int) -> Option<usize> {
        match self.run_from(input, pos, l) {
            Option::Some(s) => self.states@[s].rule_index,
            Option::None => Option::None,
        }
    }

    /// The longest-match outcome at `pos`: the length of the longest
    /// accepted prefix and the winning rule of the state it reaches, or
    /// `(0, None)` when no prefix is accepted.
    pub open spec fn match_at(&self, input: Seq<char>, pos: int) -> (int, Option<usize>) {
        match self.best_upto(input, pos, input.len() - pos) {
            Option::None => (0int, Option::None),
            Option::Some(l) => (l, self.rule_at(input, pos, l)),
        }
    }

    /// A live run always sits on a real state.
    pub proof fn lemma_run_bounds(&self, input: Seq<char>, pos: int, i: int)
        requires
            self.table_wf(),
            0 <= i,
        ensures
            match self.run_from(input, pos, i) {
                Option::Some(s) => 0 <= s < self.states@.len(),
                Option::None => true,
            },
        decreases i,
    {
        if i > 0 {
            self.lemma_run_bounds(input, pos, i - 1);
        }
    }

    /// A run that died stays dead.
    proof fn lemma_run_dead(&self, input: Seq<char>, pos: int, i: int, j: int)
        requires
            self.run_from(input, pos, i) is None,
            i <= j,
        ensures
            self.run_from(input, pos, j) is None,
        decreases j - i,
    {
        if i < j {
            self.lemma_run_dead(input, pos, i, j - 1);
        }
    }

    /// The best match length lies in `[0, hi]` and is accepted.
    pub proof fn lemma_best_upto_bound(&self, input: Seq<char>, pos: int, hi: int)
        ensures
            match self.best_upto(input, pos, hi) {
                Option::None => true,
                Option::Some(l) => 0 <= l <= hi && self.accepts_from(input, pos, l),
            },
        decreases hi + 1,
    {
        if hi >= 0 && !self.accepts_from(input, pos, hi) {
            self.lemma_best_upto_bound(input, pos, hi - 1);
        }
    }

    /// Nothing above `k` is accepted, so the search collapses to `k`.
    proof fn lemma_best_upto_collapse(&self, input: Seq<char>, pos: int, k: int, hi: int)
        requires
            k <= hi,
            forall|l: int| k < l <= hi ==> !self.accepts_from(input, pos, l),
        ensures
            self.best_upto(input, pos, hi) == self.best_upto(input, pos, k),
        decreases hi - k,
    {
        if k < hi {
            self.lemma_best_upto_collapse(input, pos, k, hi - 1);
        }
    }

    /// The best match is maximal: every accepted length is at most it.
    pub proof fn lemma_best_upto_maximal(&self, input: Seq<char>, pos: int, hi: int, l: int)
        requires
            0 <= l <= hi,
            self.accepts_from(input, pos, l),
        ensures
            match self.best_upto(input, pos, hi) {
                Option::None => false,
                Option::Some(b) => l <= b,
            },
        decreases hi + 1,
    {
        if hi >= 0 && !self.accepts_from(input, pos, hi) {
            self.lemma_best_upto_maximal(input, pos, hi - 1, l);
        }
    }

    /// The longest-match loop: simulates the DFA from
    /// `pos`, remembering the last accepting position and its rule, and
    /// stops at the first missing transition or at end of input.
    pub fn longest_match(&self, chars: &Vec<char>, pos: usize) -> (res: (usize, Option<usize>))
        requires
            self.table_wf(),
            pos <= chars@.len(),
        ensures
            (res.0 as int, res.1) == self.match_at(chars@, pos as int),
            res.0 <= chars@.len() - pos,
    {
        let mut current: usize = 0;
        let mut last_pos: usize = 0;
        let mut last_rule: Option<usize> = None;
        if self.states[current].is_accepting {
            last_rule = self.states[current].rule_index;
        }
        let mut i: usize = pos;
        proof {
            assert(self.run_from(chars@, pos as int, 0) == Option::Some(0int));
            assert(self.best_upto(chars@, pos as int, -1) is None);
            assert(self.accepts_from(chars@, pos as int, 0) == self.states@[0].is_accepting);
            if self.states@[0].is_accepting {
                assert(self.best_upto(chars@, pos as int, 0) == Option::Some(0int));
            } else {
                assert(self.best_upto(chars@, pos as int, 0) is None);
            }
        }
        while i < chars.len()
            invariant
                self.table_wf(),
                pos <= i <= chars@.len(),
                current < self.states@.len(),
                self.run_from(chars@, pos as int, i - pos) == Option::Some(current as int),
                last_pos <= i - pos,
                (last_pos as int, last_rule) == (match self.best_upto(
                    chars@,
                    pos as int,
                    i - pos,
                ) {
                    Option::None => (0int, Option::<usize>::None),
                    Option::Some(l) => (l, self.rule_at(chars@, pos as int, l)),
                }),
            decreases chars@.len() - i,
        {
            let c = chars[i];
            let cu = char_code(c);
            let mut next: Option<usize> = None;
            if 32 <= cu && cu < 127 {
                let ci = (cu - 32) as usize;
                next = self.transitions[current][ci];
            }
            proof {
                assert(self.run_from(chars@, pos as int, i + 1 - pos) == self.step(
                    current as int,
                    chars@[i as int],
                ));
            }
            match next {
                Option::Some(t) => {
                    proof {
                        assert(c == chars@[i as int]);
                        assert(in_alphabet(chars@[i as int]));
                        assert(alpha_index(chars@[i as int]) == cu - 32);
                        assert(self.step(current as int, chars@[i as int]) == Option::Some(
                            t as int,
                        ));
                    }
                    current = t;
                    i = i + 1;
                    proof {
                        assert(self.run_from(chars@, pos as int, i - pos) == Option::Some(
                            current as int,
                        ));
                        assert(self.accepts_from(chars@, pos as int, i - pos)
                            == self.states@[current as int].is_accepting);
                        if self.states@[current as int].is_accepting {
                            assert(self.best_upto(chars@, pos as int, i - pos) == Option::Some(
                                i - pos,
                            ));
                        } else {
                            assert(self.best_upto(chars@, pos as int, i - pos) == self.best_upto(
                                chars@,
                                pos as int,
                                i - pos - 1,
                            ));
                        }
                    }
                    if self.states[current].is_accepting {
                        last_pos = i - pos;
                        last_rule = self.states[current].rule_index;
                    }
                },
                Option::None => {
                    proof {
                        let dead = i + 1 - pos;
                        assert(self.run_from(chars@, pos as int, dead) is None);
                        assert forall|l: int|
                            i - pos < l <= chars@.len() - pos implies !self.accepts_from(
                            chars@,
                            pos as int,
                            l,
                        ) by {
                            self.lemma_run_dead(chars@, pos as int, dead, l);
                        }
                        self.lemma_best_upto_collapse(
                            chars@,
                            pos as int,
                            i - pos,
                            chars@.len() - pos,
                        );
                    }
                    return (last_pos, last_rule);
                },
            }
        }
        (last_pos, last_rule)
    }
}

/// The numeric code of a character.
fn char_code(c: char) -> (r: u32)
    ensures
        r as int == c as int,
{
    c as u32
}

/// The ghost value of one emitted token: lexeme, line, column, rule.
pub open spec fn token_view(t: (String, usize, usize, Option<usize>)) -> (
    Seq<char>,
    int,
    int,
    Option<usize>,
) {
    (t.0@, t.1 as int, t.2 as int, t.3)
}

/// The ghost values of a token list.
pub open spec fn token_views(toks: Seq<(String, usize, usize, Option<usize>)>) -> Seq<
    (Seq<char>, int, int, Option<usize>),
> {
    Seq::new(toks.len(), |i: int| token_view(toks[i]))
}

impl DFA {
    /// The token stream the scanner produces from `pos` on: one entry per
    /// match (the matched lexeme, the line and column of its first
    /// character, and the winning rule), a single-character advance on
    /// positions where nothing matches, a one-character advance after a
    /// zero-length match, and a final end-of-input marker with empty
    /// lexeme and no rule.
    pub open spec fn scan_spec(&self, input: Seq<char>, pos: int) -> Seq<
        (Seq<char>, int, int, Option<usize>),
    >
        decreases input.len() - pos,
        when 0 <= pos
        via Self::scan_spec_decreases
    {
        if pos >= input.len() {
            seq![(Seq::<char>::empty(), line_of(input, pos), col_of(input, pos), Option::<usize>::None)]
        } else {
            let m = self.match_at(input, pos);
            if m.1 is Some {
                let tok = (
                    input.subrange(pos, pos + m.0),
                    line_of(input, pos),
                    col_of(input, pos),
                    m.1,
                );
                let adv = if m.0 > 0 {
                    m.0
                } else {
                    1int
                };
                seq![tok] + self.scan_spec(input, pos + adv)
            } else {
                self.scan_spec(input, pos + 1)
            }
        }
    }

    #[via_fn]
    proof fn scan_spec_decreases(&self, input: Seq<char>, pos: int) {
        self.lemma_best_upto_bound(input, pos, input.len() - pos);
    }

    /// The maximal-munch scanner: repeatedly takes the
    /// longest match at the current position, records its lexeme and the
    /// line and column of its first character together with the winning
    /// rule, advances by one character on positions where nothing matches
    /// or where only the empty string matches, and ends with an
    /// end-of-input marker carrying the final position and no rule.
    pub fn simulate(&self, input: &str) -> (tokens: Vec<(String, usize, usize, Option<usize>)>)
        requires
            self.table_wf(),
            input@.len() < usize::MAX,
        ensures
            token_views(tokens@) == self.scan_spec(input@, 0),
    {
        let n = input.unicode_len();
        let mut chars: Vec<char> = Vec::new();
        let mut ki: usize = 0;
        while ki < n
            invariant
                ki <= n,
                n == input@.len(),
                chars@ == input@.subrange(0, ki as int),
            decreases n - ki,
        {
            chars.push(input.get_char(ki));
            proof {
                assert(chars@ =~= input@.subrange(0, ki as int + 1));
            }
            ki = ki + 1;
        }
        proof {
            assert(chars@ =~= input@);
        }
        let mut tokens: Vec<(String, usize, usize, Option<usize>)> = Vec::new();
        let mut line: usize = 1;
        let mut column: usize = 1;
        let mut pos: usize = 0;
        proof {
            assert(token_views(tokens@) + self.scan_spec(input@, 0) =~= self.scan_spec(input@, 0));
        }
        while pos < chars.len()
            invariant
                self.table_wf(),
                chars@ == input@,
                input@.len() < usize::MAX,
                pos <= chars@.len(),
                line as int == line_of(input@, pos as int),
                column as int == col_of(input@, pos as int),
                line <= pos + 1,
                column <= pos + 1,
                self.scan_spec(input@, 0) == token_views(tokens@) + self.scan_spec(
                    input@,
                    pos as int,
                ),
            decreases chars@.len() - pos,
        {
            let (tlen, rule) = self.longest_match(&chars, pos);
            let ghost m = self.match_at(input@, pos as int);
            if rule.is_some() {
                let lex = input.substring_char(pos, pos + tlen).to_owned();
                let tok = (lex, line, column, rule);
                let ghost tv = token_view(tok);
                let ghost old_tokens = tokens@;
                tokens.push(tok);
                let adv = if tlen > 0 {
                    tlen
                } else {
                    1
                };
                proof {
                    assert(m.1 is Some);
                    let sadv: int = if m.0 > 0 {
                        m.0
                    } else {
                        1int
                    };
                    assert(adv as int == sadv);
                    assert(self.scan_spec(input@, pos as int) == seq![
                        (
                            input@.subrange(pos as int, pos as int + m.0),
                            line_of(input@, pos as int),
                            col_of(input@, pos as int),
                            m.1,
                        ),
                    ] + self.scan_spec(input@, pos as int + sadv));
                    assert(tv == (
                        input@.subrange(pos as int, pos as int + m.0),
                        line_of(input@, pos as int),
                        col_of(input@, pos as int),
                        m.1,
                    ));
                    assert(token_views(tokens@) =~= token_views(old_tokens) + seq![tv]);
                    assert(self.scan_spec(input@, 0) =~= token_views(tokens@) + self.scan_spec(
                        input@,
                        pos as int + sadv,
                    ));
                }
                let lim = pos + adv;
                let mut j = pos;
                while j < lim
                    invariant
                        pos <= j <= lim,
                        lim <= chars@.len(),
                        chars@ == input@,
                        input@.len() < usize::MAX,
                        line as int == line_of(input@, j as int),
                        column as int == col_of(input@, j as int),
                        line <= j + 1,
                        column <= j + 1,
                    decreases lim - j,
                {
                    if chars[j] == '\n' {
                        line = line + 1;
                        column = 1;
                    } else {
                        column = column + 1;
                    }
                    j = j + 1;
                }
                pos = lim;
            } else {
                proof {
                    assert(m.1 is None);
                    assert(self.scan_spec(input@, pos as int) == self.scan_spec(
                        input@,
                        pos as int + 1,
                    ));
                }
                if chars[pos] == '\n' {
                    line = line + 1;
                    column = 1;
                } else {
                    column = column + 1;
                }
                pos = pos + 1;
            }
        }
        let eof = (String::new(), line, column, Option::<usize>::None);
        let ghost eofv = token_view(eof);
        let ghost old_tokens = tokens@;
        tokens.push(eof);
        proof {
            assert(self.scan_spec(input@, pos as int) == seq![
                (
                    Seq::<char>::empty(),
                    line_of(input@, pos as int),
                    col_of(input@, pos as int),
                    Option::<usize>::None,
                ),
            ]);
            assert(token_views(tokens@) =~= token_views(old_tokens) + seq![eofv]);
            assert(token_views(tokens@) =~= self.scan_spec(input@, 0));
        }
        tokens
    }
}

} // verus!
