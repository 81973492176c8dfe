//! The laws of the built automata and the scanner, stated and proved
//! against the contracts of the construction and of the scanning loop.

use vstd::prelude::*;
use crate::nfa::NFA;
use crate::dfa::DFA;
use crate::dfa::alpha_index;
use crate::dfa::alpha_char;
use crate::dfa::in_alphabet;
use crate::dfa::rule_hits;
use crate::dfa::row_entry_holds;
use crate::dfa::state_ok;
use crate::dfa::line_of;
use crate::dfa::col_of;

verus! {

/// The set of states a single NFA can be in after consuming, from `pos`,
/// the first `i` characters of `input`: the closure of its start state,
/// stepped by move-then-closure for each character.
pub open spec fn nfa_reach(nfa: NFA, input: Seq<char>, pos: int, i: int) -> Set<int>
    decreases i,
{
    if i <= 0 {
        nfa.eps_closure_spec(Set::empty().insert(nfa.start_state.0 as int))
    } else {
        nfa.eps_closure_spec(
            nfa.move_spec(nfa_reach(nfa, input, pos, i - 1), input[pos + i - 1]),
        )
    }
}

/// Subset-construction faithfulness: over printable input, the DFA state
/// reached after any number of characters records, rule by rule, exactly
/// the set of NFA states reachable on that input; and the run dies
/// exactly when every rule's reachable set is empty.
///
/// The printable-input premise is needed: an NFA may carry transitions on
/// characters outside the alphabet (a rule whose regex is the escape for
/// a tab), which the DFA never tabulates.
pub proof fn lemma_subset_faithful(
    dfa: &DFA,
    nfas: Seq<(NFA, usize)>,
    input: Seq<char>,
    pos: int,
    k: int,
)
    requires
        dfa.subset_wf(nfas),
        0 <= pos,
        0 <= k,
        pos + k <= input.len(),
        forall|idx: int| pos <= idx < pos + k ==> in_alphabet(#[trigger] input[idx]),
    ensures
        match dfa.run_from(input, pos, k) {
            Option::Some(s) => 0 <= s < dfa.states@.len() && forall|r: int|
                0 <= r < nfas.len() ==> (#[trigger] dfa.states@[s].nfa_states@[r])@ == nfa_reach(
                    nfas[r].0,
                    input,
                    pos,
                    k,
                ),
            Option::None => forall|r: int|
                0 <= r < nfas.len() ==> (#[trigger] nfa_reach(nfas[r].0, input, pos, k)).is_empty(),
        },
    decreases k,
{
    if k == 0 {
        assert(dfa.run_from(input, pos, 0) == Option::Some(0int));
        assert forall|r: int| 0 <= r < nfas.len() implies (
        #[trigger] dfa.states@[0].nfa_states@[r])@ == nfa_reach(nfas[r].0, input, pos, 0) by {}
    } else {
        lemma_subset_faithful(dfa, nfas, input, pos, k - 1);
        let c = input[pos + k - 1];
        assert(in_alphabet(c));
        match dfa.run_from(input, pos, k - 1) {
            Option::Some(s) => {
                let ci = alpha_index(c);
                assert(alpha_char(ci) == c);
                assert(row_entry_holds(dfa.states@, dfa.transitions@, s, ci, nfas));
                assert(dfa.run_from(input, pos, k) == dfa.step(s, c));
                match dfa.transitions@[s]@[ci] {
                    Option::Some(t) => {
                        assert(dfa.run_from(input, pos, k) == Option::Some(t as int));
                        assert forall|r: int| 0 <= r < nfas.len() implies (
                        #[trigger] dfa.states@[t as int].nfa_states@[r])@ == nfa_reach(
                            nfas[r].0,
                            input,
                            pos,
                            k,
                        ) by {
                            assert(dfa.states@[t as int].nfa_states@[r]@ == crate::dfa::succ_set(
                                nfas[r].0,
                                dfa.states@[s].nfa_states@[r]@,
                                c,
                            ));
                            assert(dfa.states@[s].nfa_states@[r]@ == nfa_reach(
                                nfas[r].0,
                                input,
                                pos,
                                k - 1,
                            ));
                        }
                    },
                    Option::None => {
                        assert forall|r: int| 0 <= r < nfas.len() implies (#[trigger] nfa_reach(
                            nfas[r].0,
                            input,
                            pos,
                            k,
                        )).is_empty() by {
                            assert((nfas[r].0.move_spec(
                                dfa.states@[s].nfa_states@[r]@,
                                c,
                            )).is_empty());
                            assert(dfa.states@[s].nfa_states@[r]@ == nfa_reach(
                                nfas[r].0,
                                input,
                                pos,
                                k - 1,
                            ));
                            nfas[r].0.lemma_empty_closure(c);
                            assert(nfa_reach(nfas[r].0, input, pos, k) =~= Set::<int>::empty());
                        }
                    },
                }
            },
            Option::None => {
                assert(dfa.run_from(input, pos, k) is None);
                assert forall|r: int| 0 <= r < nfas.len() implies (#[trigger] nfa_reach(
                    nfas[r].0,
                    input,
                    pos,
                    k,
                )).is_empty() by {
                    assert((nfa_reach(nfas[r].0, input, pos, k - 1)).is_empty());
                    assert(nfa_reach(nfas[r].0, input, pos, k - 1) =~= Set::<int>::empty());
                    nfas[r].0.lemma_empty_closure(c);
                    assert(nfa_reach(nfas[r].0, input, pos, k) =~= Set::<int>::empty());
                }
            },
        }
    }
}

/// Priority monotonicity: when two rules both accept the prefix the
/// scanner chose, the selected rule value is at most the lower of the
/// two and strictly below the higher: declaration order wins ties.
pub proof fn lemma_priority(
    dfa: &DFA,
    nfas: Seq<(NFA, usize)>,
    input: Seq<char>,
    pos: int,
    s: int,
    i: int,
    j: int,
)
    requires
        dfa.subset_wf(nfas),
        0 <= pos <= input.len(),
        dfa.run_from(input, pos, dfa.match_at(input, pos).0) == Option::Some(s),
        0 <= s < dfa.states@.len(),
        rule_hits(dfa.states@[s].nfa_states@, nfas, i),
        rule_hits(dfa.states@[s].nfa_states@, nfas, j),
        nfas[i].1 < nfas[j].1,
    ensures
        match dfa.match_at(input, pos).1 {
            Option::Some(v) => v <= nfas[i].1 && v < nfas[j].1,
            Option::None => false,
        },
{
    let m = dfa.match_at(input, pos);
    assert(state_ok(dfa.states@[s], nfas));
    let rule = dfa.states@[s].rule_index;
    match rule {
        Option::None => {
            assert(!rule_hits(dfa.states@[s].nfa_states@, nfas, i));
        },
        Option::Some(v) => {
            assert(v <= nfas[i].1);
            assert(v <= nfas[j].1);
        },
    }
    assert(dfa.states@[s].is_accepting);
    assert(dfa.accepts_from(input, pos, m.0));
    dfa.lemma_best_upto_bound(input, pos, input.len() - pos);
    match dfa.best_upto(input, pos, input.len() - pos) {
        Option::None => {
            assert(m.0 == 0);
            dfa.lemma_best_upto_maximal(input, pos, input.len() - pos, 0);
            assert(false);
        },
        Option::Some(l) => {
            assert(m.0 == l && m.1 == dfa.rule_at(input, pos, l));
            assert(m.1 == rule);
        },
    }
}

/// Progress: at a position where no rule matches, the scanner emits
/// nothing and advances by exactly one character.
pub proof fn lemma_scan_progress(dfa: &DFA, input: Seq<char>, pos: int)
    requires
        0 <= pos < input.len(),
        dfa.match_at(input, pos).1 is None,
    ensures
        dfa.scan_spec(input, pos) == dfa.scan_spec(input, pos + 1),
{
}

/// Maximal munch: every accepted prefix length at `pos` is at most the
/// chosen match length, which itself is accepted.
pub proof fn lemma_maximal_munch(dfa: &DFA, input: Seq<char>, pos: int, l: int)
    requires
        dfa.table_wf(),
        forall|st: int|
            0 <= st < dfa.states@.len() ==> (#[trigger] dfa.states@[st]).is_accepting == (
            dfa.states@[st].rule_index is Some),
        0 <= pos <= input.len(),
        0 <= l <= input.len() - pos,
        dfa.accepts_from(input, pos, l),
    ensures
        l <= dfa.match_at(input, pos).0,
        dfa.match_at(input, pos).1 is Some,
        dfa.accepts_from(input, pos, dfa.match_at(input, pos).0),

{
    dfa.lemma_best_upto_maximal(input, pos, input.len() - pos, l);
    dfa.lemma_best_upto_bound(input, pos, input.len() - pos);
    match dfa.best_upto(input, pos, input.len() - pos) {
        Option::Some(b) => {
            assert(dfa.accepts_from(input, pos, b));
            assert(dfa.match_at(input, pos).1 == dfa.rule_at(input, pos, b));
            dfa.lemma_run_bounds(input, pos, b);
            match dfa.run_from(input, pos, b) {
                Option::Some(st) => {
                    assert(dfa.states@[st].is_accepting);
                },
                Option::None => {},
            }
        },
        Option::None => {},
    }
}

/// Maximal munch at the rule level: over printable input, if any rule's
/// NFA accepts a prefix of length `l` at `pos`, the scanner's chosen
/// match is at least that long.  No rule accepts a longer prefix than
/// the one chosen.
pub proof fn lemma_no_rule_beats_match(
    dfa: &DFA,
    nfas: Seq<(NFA, usize)>,
    input: Seq<char>,
    pos: int,
    l: int,
    r: int,
    a: int,
)
    requires
        dfa.subset_wf(nfas),
        0 <= pos <= input.len(),
        0 <= l <= input.len() - pos,
        forall|idx: int| pos <= idx < pos + l ==> in_alphabet(#[trigger] input[idx]),
        0 <= r < nfas.len(),
        nfa_reach(nfas[r].0, input, pos, l).contains(a),
        nfas[r].0.accepts_state(a),
    ensures
        l <= dfa.match_at(input, pos).0,
        dfa.match_at(input, pos).1 is Some,
{
    lemma_subset_faithful(dfa, nfas, input, pos, l);
    match dfa.run_from(input, pos, l) {
        Option::Some(s) => {
            assert(dfa.states@[s].nfa_states@[r]@ == nfa_reach(nfas[r].0, input, pos, l));
            assert(rule_hits(dfa.states@[s].nfa_states@, nfas, r));
            assert(state_ok(dfa.states@[s], nfas));
            assert(dfa.states@[s].is_accepting);
            assert(dfa.accepts_from(input, pos, l));
            dfa.lemma_subset_wf_table(nfas);
            assert forall|st: int| 0 <= st < dfa.states@.len() implies (
            #[trigger] dfa.states@[st]).is_accepting == (dfa.states@[st].rule_index is Some) by {
                assert(state_ok(dfa.states@[st], nfas));
            }
            lemma_maximal_munch(dfa, input, pos, l);
        },
        Option::None => {
            assert((nfa_reach(nfas[r].0, input, pos, l)).is_empty());
            assert(false);
        },
    }
}

/// Number of newlines among the first `p` characters.
pub open spec fn nl_count(input: Seq<char>, p: int) -> int
    decreases p,
{
    if p <= 0 {
        0
    } else {
        nl_count(input, p - 1) + if input[p - 1] == '\n' {
            1int
        } else {
            0int
        }
    }
}

/// Position just after the last newline among the first `p` characters,
/// or 0 if there is none.
pub open spec fn last_break(input: Seq<char>, p: int) -> int
    decreases p,
{
    if p <= 0 {
        0
    } else if input[p - 1] == '\n' {
        p
    } else {
        last_break(input, p - 1)
    }
}

/// Line and column arithmetic: after any run of characters, the line is
/// one more than the number of newlines consumed, and the column is one
/// more than the number of characters since the last newline.  Together
/// with the scanner contract, whose tokens carry `line_of` and `col_of`
/// of their first character, this fixes every reported position.
pub proof fn lemma_line_col(input: Seq<char>, p: int)
    requires
        0 <= p,
    ensures
        line_of(input, p) == 1 + nl_count(input, p),
        col_of(input, p) == p - last_break(input, p) + 1,
    decreases p,
{
    if p > 0 {
        lemma_line_col(input, p - 1);
    }
}

/// Determinism: the token stream is a function of the built DFA and the
/// input alone, so two runs of the same DFA on the same input agree.
/// `simulate` returns a list whose ghost value is `scan_spec`, from
/// which both conclusions below follow.
pub proof fn lemma_scan_deterministic(
    dfa: &DFA,
    input: Seq<char>,
    a: Seq<(Seq<char>, int, int, Option<usize>)>,
    b: Seq<(Seq<char>, int, int, Option<usize>)>,
)
    requires
        a == dfa.scan_spec(input, 0),
        b == dfa.scan_spec(input, 0),
    ensures
        a == b,
{
}

} // verus!
