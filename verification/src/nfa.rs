//! Nondeterministic finite automata with epsilon transitions.
//!
//! States are dense integer identifiers `0..state_count`.  The transition
//! relation is an edge list; a label is either a concrete character or an
//! epsilon edge.  Sets of states are membership vectors, which makes them
//! canonical: two sets over the same state space are equal exactly when
//! their bit vectors are equal.

use vstd::prelude::*;
use vstd::set_lib::lemma_len_subset;
use vstd::set_lib::lemma_int_range;
use vstd::set_lib::set_int_range;
use crate::regex_parser::RegexNode;

verus! {

/// Number of fresh states the Thompson construction allocates for a node.
/// `Plus` builds its operand twice, so its cost doubles the operand's.
pub open spec fn fresh_states(r: RegexNode) -> nat
    decreases r,
{
    match r {
        RegexNode::Char(_) => 0,
        RegexNode::Dot => 0,
        RegexNode::CharClass(_) => 0,
        RegexNode::NegatedCharClass(_) => 0,
        RegexNode::Concatenation(l, rr) => 1 + fresh_states(*l) + fresh_states(*rr),
        RegexNode::Alternation(l, rr) => fresh_states(*l) + fresh_states(*rr),
        RegexNode::Kleene(x) => 2 + fresh_states(*x),
        RegexNode::Plus(x) => 3 + 2 * fresh_states(*x),
        RegexNode::Optional(x) => fresh_states(*x),
    }
}

/// The character edges `start --c--> accept` for every `c` in `[lo, hi)`
/// that is not a newline and not in `excluded`, in increasing order.
pub open spec fn range_edges(
    lo: int,
    hi: int,
    excluded: Seq<char>,
    start: StateId,
    accept: StateId,
) -> Seq<(StateId, Transition, StateId)>
    decreases hi - lo,
{
    if lo >= hi {
        Seq::empty()
    } else {
        let c = lo as char;
        let rest = range_edges(lo + 1, hi, excluded, start, accept);
        if c != '\n' && !excluded.contains(c) {
            seq![(start, Transition::Char(c), accept)] + rest
        } else {
            rest
        }
    }
}

/// A single character edge.
pub open spec fn char_edge(start: StateId, c: char, accept: StateId) -> (
    StateId,
    Transition,
    StateId,
) {
    (start, Transition::Char(c), accept)
}

/// The character edges `start --c--> accept` for the listed characters,
/// in list order.
pub open spec fn class_edges(chars: Seq<char>, start: StateId, accept: StateId) -> Seq<
    (StateId, Transition, StateId),
>
    decreases chars.len(),
{
    if chars.len() == 0 {
        Seq::empty()
    } else {
        seq![char_edge(start, chars[0], accept)] + class_edges(chars.drop_first(), start, accept)
    }
}

/// Appending a character to the list appends its edge.
proof fn lemma_class_edges_snoc(chars: Seq<char>, c: char, start: StateId, accept: StateId)
    ensures
        class_edges(chars.push(c), start, accept) == class_edges(chars, start, accept) + seq![
            char_edge(start, c, accept),
        ],
    decreases chars.len(),
{
    if chars.len() == 0 {
        assert(chars.push(c).drop_first() =~= Seq::<char>::empty());
        assert(chars =~= Seq::<char>::empty());
        assert(class_edges(chars.push(c), start, accept) =~= class_edges(chars, start, accept)
            + seq![char_edge(start, c, accept)]);
    } else {
        assert(chars.push(c).drop_first() =~= chars.drop_first().push(c));
        lemma_class_edges_snoc(chars.drop_first(), c, start, accept);
        assert(chars.push(c)[0] == chars[0]);
        assert(class_edges(chars.push(c), start, accept) =~= class_edges(chars, start, accept)
            + seq![char_edge(start, c, accept)]);
    }
}

/// The transitions the Thompson construction adds for `r` between `start`
/// and `accept`, when the next fresh state identifier is `next`; the
/// wiring of the construction, in the order the builder adds them.
pub open spec fn thompson_edges(r: RegexNode, start: StateId, accept: StateId, next: int) -> Seq<
    (StateId, Transition, StateId),
>
    decreases r,
{
    match r {
        RegexNode::Char(c) => seq![(start, Transition::Char(c), accept)],
        RegexNode::Dot => range_edges(32, 127, Seq::empty(), start, accept),
        RegexNode::CharClass(chars) => class_edges(chars@, start, accept),
        RegexNode::NegatedCharClass(chars) => range_edges(32, 127, chars@, start, accept),
        RegexNode::Concatenation(l, rr) => {
            let mid = StateId(next as usize);
            thompson_edges(*l, start, mid, next + 1) + thompson_edges(
                *rr,
                mid,
                accept,
                next + 1 + fresh_states(*l),
            )
        },
        RegexNode::Alternation(l, rr) => thompson_edges(*l, start, accept, next) + thompson_edges(
            *rr,
            start,
            accept,
            next + fresh_states(*l),
        ),
        RegexNode::Kleene(x) => {
            let ls = StateId(next as usize);
            let le = StateId((next + 1) as usize);
            seq![(start, Transition::Epsilon, accept), (start, Transition::Epsilon, ls)]
                + thompson_edges(*x, ls, le, next + 2) + seq![
                (le, Transition::Epsilon, accept),
                (le, Transition::Epsilon, ls),
            ]
        },
        RegexNode::Plus(x) => {
            let f = fresh_states(*x);
            let mid = StateId(next as usize);
            let ls = StateId((next + 1 + f) as usize);
            let le = StateId((next + 2 + f) as usize);
            thompson_edges(*x, start, mid, next + 1) + seq![
                (mid, Transition::Epsilon, ls),
                (mid, Transition::Epsilon, accept),
            ] + thompson_edges(*x, ls, le, next + 3 + f) + seq![
                (le, Transition::Epsilon, accept),
                (le, Transition::Epsilon, ls),
            ]
        },
        RegexNode::Optional(x) => seq![(start, Transition::Epsilon, accept)] + thompson_edges(
            *x,
            start,
            accept,
            next,
        ),
    }
}

/// Extending the range by one character appends its edge, if kept.
proof fn lemma_range_edges_snoc(
    lo: int,
    hi: int,
    excluded: Seq<char>,
    start: StateId,
    accept: StateId,
)
    requires
        32 <= lo <= hi <= 126,
    ensures
        range_edges(lo, hi + 1, excluded, start, accept) == range_edges(
            lo,
            hi,
            excluded,
            start,
            accept,
        ) + (if (hi as char) != '\n' && !excluded.contains(hi as char) {
            seq![(start, Transition::Char(hi as char), accept)]
        } else {
            Seq::empty()
        }),
    decreases hi - lo,
{
    let tail = if (hi as char) != '\n' && !excluded.contains(hi as char) {
        seq![(start, Transition::Char(hi as char), accept)]
    } else {
        Seq::<(StateId, Transition, StateId)>::empty()
    };
    if lo == hi {
        assert(range_edges(lo + 1, hi + 1, excluded, start, accept) =~= Seq::empty());
        assert(range_edges(lo, hi, excluded, start, accept) =~= Seq::empty());
        assert(range_edges(lo, hi + 1, excluded, start, accept) =~= tail);
        assert(range_edges(lo, hi, excluded, start, accept) + tail =~= tail);
    } else {
        lemma_range_edges_snoc(lo + 1, hi, excluded, start, accept);
        let c = lo as char;
        if c != '\n' && !excluded.contains(c) {
            assert(range_edges(lo, hi + 1, excluded, start, accept) =~= range_edges(
                lo,
                hi,
                excluded,
                start,
                accept,
            ) + tail);
        } else {
            assert(range_edges(lo, hi + 1, excluded, start, accept) =~= range_edges(
                lo,
                hi,
                excluded,
                start,
                accept,
            ) + tail);
        }
    }
}

/// Linear membership test for a character list.
fn vec_contains_char(v: &Vec<char>, c: char) -> (r: bool)
    ensures
        r == v@.contains(c),
{
    let mut i: usize = 0;
    while i < v.len()
        invariant
            i <= v@.len(),
            forall|j: int| 0 <= j < i ==> v@[j] != c,
        decreases v@.len() - i,
    {
        if v[i] == c {
            return true;
        }
        i = i + 1;
    }
    false
}

/// Identifier of an NFA state.
#[derive(Debug, Clone, Copy, PartialEq, Eq, Structural, Hash)]
pub struct StateId(pub usize);

/// Label of an NFA transition: a concrete character or an epsilon edge.
#[derive(Debug, Clone, Copy, PartialEq, Eq, Structural, Hash)]
pub enum Transition {
    Char(char),
    Epsilon,
}

/// A set of NFA states, represented as a membership vector over the
/// state space `0..capacity`.
pub struct StateSet {
    pub bits: Vec<bool>,
}

impl View for StateSet {
    type V = Set<int>;

    open spec fn view(&self) -> Set<int> {
        Set::new(|i: int| 0 <= i < self.bits@.len() && self.bits@[i])
    }
}

impl StateSet {
    /// Number of states of the space this set ranges over.
    pub open spec fn capacity(&self) -> int {
        self.bits@.len() as int
    }

    /// The empty set over a space of `capacity` states.
    pub fn new(capacity: usize) -> (r: StateSet)
        ensures
            r.capacity() == capacity,
            r@ == Set::<int>::empty(),
    {
        let mut bits: Vec<bool> = Vec::new();
        let mut i: usize = 0;
        while i < capacity
            invariant
                i <= capacity,
                bits@.len() == i,
                forall|j: int| 0 <= j < i ==> !bits@[j],
            decreases capacity - i,
        {
            bits.push(false);
            i = i + 1;
        }
        let r = StateSet { bits };
        proof {
            assert(r@ =~= Set::<int>::empty());
        }
        r
    }

    /// Membership test; states outside the space are never members.
    pub fn contains(&self, s: usize) -> (r: bool)
        ensures
            r == self@.contains(s as int),
    {
        s < self.bits.len() && self.bits[s]
    }

    /// Adds a state of the space to the set.
    pub fn insert(&mut self, s: usize)
        requires
            s < old(self).capacity(),
        ensures
            final(self).capacity() == old(self).capacity(),
            final(self)@ == old(self)@.insert(s as int),
    {
        self.bits.set(s, true);
        proof {
            assert(self@ =~= old(self)@.insert(s as int));
        }
    }

    /// True when the set has no members.
    pub fn is_empty(&self) -> (r: bool)
        ensures
            r == self@.is_empty(),
    {
        let mut i: usize = 0;
        while i < self.bits.len()
            invariant
                i <= self.bits@.len(),
                forall|j: int| 0 <= j < i ==> !self.bits@[j],
            decreases self.bits@.len() - i,
        {
            if self.bits[i] {
                assert(self@.contains(i as int));
                return false;
            }
            i = i + 1;
        }
        proof {
            assert(self@ =~= Set::<int>::empty());
        }
        true
    }

    /// Structural equality of two sets over the same space.
    pub fn set_eq(&self, other: &StateSet) -> (r: bool)
        ensures
            r == (self.bits@ == other.bits@),
    {
        if self.bits.len() != other.bits.len() {
            return false;
        }
        let mut i: usize = 0;
        while i < self.bits.len()
            invariant
                i <= self.bits@.len(),
                self.bits@.len() == other.bits@.len(),
                forall|j: int| 0 <= j < i ==> self.bits@[j] == other.bits@[j],
            decreases self.bits@.len() - i,
        {
            if self.bits[i] != other.bits[i] {
                return false;
            }
            i = i + 1;
        }
        proof {
            assert(self.bits@ =~= other.bits@);
        }
        true
    }

    /// An exact copy of the set.
    pub fn duplicate(&self) -> (r: StateSet)
        ensures
            r.bits@ == self.bits@,
            r@ == self@,
            r.capacity() == self.capacity(),
    {
        let mut bits: Vec<bool> = Vec::new();
        let mut i: usize = 0;
        while i < self.bits.len()
            invariant
                i <= self.bits@.len(),
                bits@ == self.bits@.subrange(0, i as int),
            decreases self.bits@.len() - i,
        {
            bits.push(self.bits[i]);
            i = i + 1;
        }
        proof {
            assert(bits@ =~= self.bits@);
        }
        StateSet { bits }
    }

    /// Every state set is a finite subset of its state space.
    pub proof fn lemma_len(&self)
        ensures
            self@.finite(),
            self@.len() <= self.capacity(),
    {
        let range = set_int_range(0, self.capacity());
        lemma_int_range(0, self.capacity());
        assert(self@.subset_of(range));
        lemma_len_subset(self@, range);
    }
}

/// A Thompson NFA: a dense state space, one start state, a set of accept
/// states and an edge list of labelled transitions.
pub struct NFA {
    pub state_count: usize,
    pub start_state: StateId,
    pub accept_states: Vec<StateId>,
    pub transitions: Vec<(StateId, Transition, StateId)>,
}

impl NFA {
    /// An automaton with no states, no accept states and no transitions.
    pub fn new() -> (r: NFA)
        ensures
            r.state_count == 0,
            r.start_state == (StateId(0usize)),
            r.accept_states@ == Seq::<StateId>::empty(),
            r.transitions@ == Seq::<(StateId, Transition, StateId)>::empty(),
            r.wf(),
    {
        NFA {
            state_count: 0,
            start_state: StateId(0),
            accept_states: Vec::new(),
            transitions: Vec::new(),
        }
    }

    /// Allocates a fresh state.
    fn new_state(&mut self) -> (r: StateId)
        requires
            old(self).state_count < usize::MAX,
        ensures
            r == (StateId(old(self).state_count)),
            final(self).state_count == old(self).state_count + 1,
            final(self).start_state == old(self).start_state,
            final(self).accept_states@ == old(self).accept_states@,
            final(self).transitions@ == old(self).transitions@,
    {
        let state = StateId(self.state_count);
        self.state_count = self.state_count + 1;
        state
    }

    /// Appends one labelled edge.
    fn add_transition(&mut self, from: StateId, transition: Transition, to: StateId)
        ensures
            final(self).state_count == old(self).state_count,
            final(self).start_state == old(self).start_state,
            final(self).accept_states@ == old(self).accept_states@,
            final(self).transitions@ == old(self).transitions@.push((from, transition, to)),
    {
        self.transitions.push((from, transition, to));
    }

    /// Compiles a regular expression into a Thompson automaton: state 0 is
    /// the start, state 1 the single accept state, and the transitions are
    /// exactly the wiring of the construction.
    pub fn from_regex(regex: &RegexNode) -> (r: NFA)
        requires
            2 + fresh_states(*regex) <= usize::MAX,
        ensures
            r.wf(),
            r.state_count == 2 + fresh_states(*regex),
            r.start_state == (StateId(0usize)),
            r.accept_states@ == seq![StateId(1usize)],
            r.transitions@ == thompson_edges(*regex, StateId(0usize), StateId(1usize), 2),
    {
        let mut nfa = NFA::new();
        let start = nfa.new_state();
        let accept = nfa.new_state();
        nfa.start_state = start;
        nfa.accept_states.push(accept);
        nfa.build_nfa(regex, start, accept);
        proof {
            assert(nfa.transitions@ =~= thompson_edges(
                *regex,
                StateId(0usize),
                StateId(1usize),
                2,
            ));
        }
        nfa
    }

    /// Adds the sub-automaton for `regex` between `start` and `accept`,
    /// allocating fresh interior states; the appended edges are exactly
    /// `thompson_edges` of the node.
    fn build_nfa(&mut self, regex: &RegexNode, start: StateId, accept: StateId)
        requires
            old(self).wf(),
            old(self).state_count + fresh_states(*regex) <= usize::MAX,
            start.0 < old(self).state_count,
            accept.0 < old(self).state_count,
        ensures
            final(self).wf(),
            final(self).state_count == old(self).state_count + fresh_states(*regex),
            final(self).start_state == old(self).start_state,
            final(self).accept_states@ == old(self).accept_states@,
            final(self).transitions@ == old(self).transitions@ + thompson_edges(
                *regex,
                start,
                accept,
                old(self).state_count as int,
            ),
        decreases *regex,
    {
        let ghost pre = *self;
        match regex {
            RegexNode::Char(ch) => {
                self.add_transition(start, Transition::Char(*ch), accept);
                proof {
                    assert(self.transitions@ =~= pre.transitions@ + thompson_edges(
                        *regex,
                        start,
                        accept,
                        pre.state_count as int,
                    ));
                }
            },
            RegexNode::Dot => {
                self.add_char_range(start, accept, &Vec::new());
                proof {
                    assert(self.transitions@ =~= pre.transitions@ + thompson_edges(
                        *regex,
                        start,
                        accept,
                        pre.state_count as int,
                    ));
                }
            },
            RegexNode::CharClass(chars) => {
                let mut i: usize = 0;
                proof {
                    assert(chars@.subrange(0, 0) =~= Seq::<char>::empty());
                    assert(self.transitions@ =~= pre.transitions@ + class_edges(
                        chars@.subrange(0, 0),
                        start,
                        accept,
                    ));
                }
                while i < chars.len()
                    invariant
                        self.wf(),
                        i <= chars@.len(),
                        self.state_count == pre.state_count,
                        self.start_state == pre.start_state,
                        self.accept_states@ == pre.accept_states@,
                        start.0 < self.state_count,
                        accept.0 < self.state_count,
                        self.transitions@ == pre.transitions@ + class_edges(
                            chars@.subrange(0, i as int),
                            start,
                            accept,
                        ),
                    decreases chars@.len() - i,
                {
                    self.add_transition(start, Transition::Char(chars[i]), accept);
                    proof {
                        assert(chars@.subrange(0, i as int + 1) =~= chars@.subrange(
                            0,
                            i as int,
                        ).push(chars@[i as int]));
                        lemma_class_edges_snoc(
                            chars@.subrange(0, i as int),
                            chars@[i as int],
                            start,
                            accept,
                        );
                        assert(self.transitions@ =~= pre.transitions@ + class_edges(
                            chars@.subrange(0, i as int + 1),
                            start,
                            accept,
                        ));
                    }
                    i = i + 1;
                }
                proof {
                    assert(chars@.subrange(0, chars@.len() as int) =~= chars@);
                    assert(self.transitions@ =~= pre.transitions@ + thompson_edges(
                        *regex,
                        start,
                        accept,
                        pre.state_count as int,
                    ));
                }
            },
            RegexNode::NegatedCharClass(chars) => {
                self.add_char_range(start, accept, chars);
                proof {
                    assert(self.transitions@ =~= pre.transitions@ + thompson_edges(
                        *regex,
                        start,
                        accept,
                        pre.state_count as int,
                    ));
                }
            },
            RegexNode::Concatenation(left, right) => {
                let middle = self.new_state();
                self.build_nfa(left, start, middle);
                self.build_nfa(right, middle, accept);
                proof {
                    assert(self.transitions@ =~= pre.transitions@ + thompson_edges(
                        *regex,
                        start,
                        accept,
                        pre.state_count as int,
                    ));
                }
            },
            RegexNode::Alternation(left, right) => {
                self.build_nfa(left, start, accept);
                self.build_nfa(right, start, accept);
                proof {
                    assert(self.transitions@ =~= pre.transitions@ + thompson_edges(
                        *regex,
                        start,
                        accept,
                        pre.state_count as int,
                    ));
                }
            },
            RegexNode::Kleene(inner) => {
                self.add_transition(start, Transition::Epsilon, accept);
                let loop_start = self.new_state();
                let loop_end = self.new_state();
                self.add_transition(start, Transition::Epsilon, loop_start);
                self.build_nfa(inner, loop_start, loop_end);
                self.add_transition(loop_end, Transition::Epsilon, accept);
                self.add_transition(loop_end, Transition::Epsilon, loop_start);
                proof {
                    assert(self.transitions@ =~= pre.transitions@ + thompson_edges(
                        *regex,
                        start,
                        accept,
                        pre.state_count as int,
                    ));
                }
            },
            RegexNode::Plus(inner) => {
                let middle = self.new_state();
                self.build_nfa(inner, start, middle);
                let loop_start = self.new_state();
                self.add_transition(middle, Transition::Epsilon, loop_start);
                self.add_transition(middle, Transition::Epsilon, accept);
                let loop_end = self.new_state();
                self.build_nfa(inner, loop_start, loop_end);
                self.add_transition(loop_end, Transition::Epsilon, accept);
                self.add_transition(loop_end, Transition::Epsilon, loop_start);
                proof {
                    assert(self.transitions@ =~= pre.transitions@ + thompson_edges(
                        *regex,
                        start,
                        accept,
                        pre.state_count as int,
                    ));
                }
            },
            RegexNode::Optional(inner) => {
                self.add_transition(start, Transition::Epsilon, accept);
                self.build_nfa(inner, start, accept);
                proof {
                    assert(self.transitions@ =~= pre.transitions@ + thompson_edges(
                        *regex,
                        start,
                        accept,
                        pre.state_count as int,
                    ));
                }
            },
        }
    }

    /// Adds `start --c--> accept` for every printable character `c`
    /// outside `excluded`, skipping newline.
    fn add_char_range(&mut self, start: StateId, accept: StateId, excluded: &Vec<char>)
        requires
            old(self).wf(),
            start.0 < old(self).state_count,
            accept.0 < old(self).state_count,
        ensures
            final(self).wf(),
            final(self).state_count == old(self).state_count,
            final(self).start_state == old(self).start_state,
            final(self).accept_states@ == old(self).accept_states@,
            final(self).transitions@ == old(self).transitions@ + range_edges(
                32,
                127,
                excluded@,
                start,
                accept,
            ),
    {
        let ghost pre = *self;
        let mut b: u8 = 32;
        proof {
            assert(self.transitions@ =~= pre.transitions@ + range_edges(
                32,
                32,
                excluded@,
                start,
                accept,
            ));
        }
        while b < 127
            invariant
                self.wf(),
                32 <= b <= 127,
                self.state_count == pre.state_count,
                self.start_state == pre.start_state,
                self.accept_states@ == pre.accept_states@,
                start.0 < self.state_count,
                accept.0 < self.state_count,
                self.transitions@ == pre.transitions@ + range_edges(
                    32,
                    b as int,
                    excluded@,
                    start,
                    accept,
                ),
            decreases 127 - b,
        {
            let ch = b as char;
            if ch != '\n' && !vec_contains_char(excluded, ch) {
                self.add_transition(start, Transition::Char(ch), accept);
            }
            proof {
                lemma_range_edges_snoc(32, b as int, excluded@, start, accept);
                assert(self.transitions@ =~= pre.transitions@ + range_edges(
                    32,
                    b as int + 1,
                    excluded@,
                    start,
                    accept,
                ));
            }
            b = b + 1;
        }
    }
    /// All transition endpoints, accept states and (for a non-empty state
    /// space) the start state lie inside the state space.
    pub open spec fn wf(&self) -> bool {
        &&& (self.state_count > 0 ==> self.start_state.0 < self.state_count)
        &&& forall|k: int|
            0 <= k < self.transitions@.len() ==> (#[trigger] self.transitions@[k]).0.0
                < self.state_count && self.transitions@[k].2.0 < self.state_count
        &&& forall|k: int|
            0 <= k < self.accept_states@.len() ==> (#[trigger] self.accept_states@[k]).0
                < self.state_count
    }

    /// There is an epsilon edge from `a` to `b`.
    pub open spec fn has_eps(&self, a: int, b: int) -> bool {
        exists|k: int|
            0 <= k < self.transitions@.len() && (#[trigger] self.transitions@[k]).1 is Epsilon
                && self.transitions@[k].0.0 == a && self.transitions@[k].2.0 == b
    }

    /// There is an edge from `a` to `b` labelled with the character `c`.
    pub open spec fn has_char(&self, a: int, c: char, b: int) -> bool {
        exists|k: int|
            0 <= k < self.transitions@.len() && (#[trigger] self.transitions@[k]).1
                == Transition::Char(c) && self.transitions@[k].0.0 == a
                && self.transitions@[k].2.0 == b
    }

    /// `a` is one of the accept states.
    pub open spec fn accepts_state(&self, a: int) -> bool {
        exists|k: int|
            0 <= k < self.accept_states@.len() && (#[trigger] self.accept_states@[k]).0 == a
    }

    /// `s` is closed under epsilon edges.
    pub open spec fn eps_closed(&self, s: Set<int>) -> bool {
        forall|a: int, b: int| s.contains(a) && #[trigger] self.has_eps(a, b) ==> s.contains(b)
    }

    /// The epsilon closure of `s`: the least superset of `s` closed under
    /// epsilon edges, here written as the intersection of all such supersets.
    pub open spec fn eps_closure_spec(&self, s: Set<int>) -> Set<int> {
        Set::new(
            |x: int|
                forall|c: Set<int>|
                    s.subset_of(c) && #[trigger] self.eps_closed(c) ==> c.contains(x),
        )
    }

    /// The set of states reachable from `s` over one edge labelled `c`.
    pub open spec fn move_spec(&self, s: Set<int>, c: char) -> Set<int> {
        Set::new(|b: int| exists|a: int| s.contains(a) && #[trigger] self.has_char(a, c, b))
    }

    /// The epsilon closure contains its argument, is closed under epsilon
    /// edges, and lies inside every closed superset of the argument.
    pub proof fn lemma_closure_props(&self, s: Set<int>)
        ensures
            s.subset_of(self.eps_closure_spec(s)),
            self.eps_closed(self.eps_closure_spec(s)),
            forall|c: Set<int>|
                s.subset_of(c) && #[trigger] self.eps_closed(c) ==> self.eps_closure_spec(
                    s,
                ).subset_of(c),
    {
        let cl = self.eps_closure_spec(s);
        assert forall|x: int| s.contains(x) implies cl.contains(x) by {
            assert forall|c: Set<int>| s.subset_of(c) && #[trigger] self.eps_closed(c)
                implies c.contains(x) by {
                assert(c.contains(x));
            }
        }
        assert forall|a: int, b: int| cl.contains(a) && #[trigger] self.has_eps(a, b)
            implies cl.contains(b) by {
            assert forall|c: Set<int>| s.subset_of(c) && #[trigger] self.eps_closed(c)
                implies c.contains(b) by {
                assert(c.contains(a));
            }
        }
    }

    /// Idempotence: taking the epsilon closure twice adds nothing.
    pub proof fn lemma_closure_idempotent(&self, s: Set<int>)
        ensures
            self.eps_closure_spec(self.eps_closure_spec(s)) == self.eps_closure_spec(s),
    {
        let c1 = self.eps_closure_spec(s);
        let c2 = self.eps_closure_spec(c1);
        self.lemma_closure_props(s);
        self.lemma_closure_props(c1);
        assert(c1.subset_of(c1));
        assert(c2.subset_of(c1));
        assert(c2 =~= c1);
    }

    /// The closure of the empty set is empty, and a move out of the empty
    /// set reaches nothing.
    pub proof fn lemma_empty_closure(&self, c: char)
        ensures
            self.eps_closure_spec(Set::<int>::empty()) == Set::<int>::empty(),
            self.move_spec(Set::<int>::empty(), c) == Set::<int>::empty(),
    {
        self.lemma_closure_props(Set::<int>::empty());
        assert(self.eps_closed(Set::<int>::empty()));
        assert(self.eps_closure_spec(Set::<int>::empty()) =~= Set::<int>::empty());
        assert(self.move_spec(Set::<int>::empty(), c) =~= Set::<int>::empty());
    }

    /// One pass of the closure loop has nothing left to do at edge `j`.
    spec fn eps_step_done(&self, s: Set<int>, j: int) -> bool {
        let t = self.transitions@[j];
        (t.1 is Epsilon && s.contains(t.0.0 as int)) ==> s.contains(t.2.0 as int)
    }

    /// The epsilon closure of `states`: the least superset of `states`
    /// closed under epsilon edges, computed by iterating passes over the
    /// edge list until a fixed point is reached.
    pub fn epsilon_closure(&self, states: &StateSet) -> (r: StateSet)
        requires
            self.wf(),
            states.capacity() == self.state_count,
        ensures
            r.capacity() == self.state_count,
            r@ == self.eps_closure_spec(states@),
    {
        let n = self.state_count;
        let ghost spec_cl = self.eps_closure_spec(states@);
        proof {
            self.lemma_closure_props(states@);
        }
        let mut closure = states.duplicate();
        loop
            invariant
                self.wf(),
                n == self.state_count,
                closure.capacity() == n,
                states@.subset_of(closure@),
                closure@.subset_of(spec_cl),
                spec_cl == self.eps_closure_spec(states@),
            decreases n - closure@.len(),
        {
            proof {
                closure.lemma_len();
            }
            let ghost before = closure@;
            let mut changed = false;
            let mut k: usize = 0;
            while k < self.transitions.len()
                invariant
                    self.wf(),
                    n == self.state_count,
                    closure.capacity() == n,
                    states@.subset_of(closure@),
                    closure@.subset_of(spec_cl),
                    spec_cl == self.eps_closure_spec(states@),
                    before.subset_of(closure@),
                    before.finite(),
                    closure@.finite(),
                    changed ==> before.len() < closure@.len(),
                    !changed ==> closure@ == before,
                    !changed ==> forall|j: int| 0 <= j < k ==> self.eps_step_done(closure@, j),
                    k <= self.transitions@.len(),
                decreases self.transitions@.len() - k,
            {
                let t = &self.transitions[k];
                match t.1 {
                    Transition::Epsilon => {
                        if closure.contains(t.0.0) && !closure.contains(t.2.0) {
                            proof {
                                // The new member lies in the closure because the
                                // closure is epsilon-closed and holds the source.
                                assert(self.has_eps(t.0.0 as int, t.2.0 as int));
                                self.lemma_closure_props(states@);
                                assert(spec_cl.contains(t.0.0 as int));
                                assert(spec_cl.contains(t.2.0 as int));
                            }
                            let target = t.2.0;
                            closure.insert(target);
                            changed = true;
                        }
                    },
                    Transition::Char(_) => {},
                }
                k = k + 1;
            }
            if !changed {
                proof {
                    assert forall|a: int, b: int|
                        closure@.contains(a) && #[trigger] self.has_eps(a, b)
                        implies closure@.contains(b) by {
                        let j = choose|j: int|
                            0 <= j < self.transitions@.len()
                                && (#[trigger] self.transitions@[j]).1 is Epsilon
                                && self.transitions@[j].0.0 == a
                                && self.transitions@[j].2.0 == b;
                        assert(self.eps_step_done(closure@, j));
                    }
                    assert(self.eps_closed(closure@));
                    self.lemma_closure_props(states@);
                    assert(spec_cl.subset_of(closure@));
                    assert(closure@ =~= spec_cl);
                }
                return closure;
            }
            proof {
                closure.lemma_len();
            }
        }
    }

    /// Reachability over the edges before index `k` on character `c`.
    spec fn move_upto(&self, s: Set<int>, c: char, k: int) -> Set<int> {
        Set::new(
            |b: int|
                exists|j: int|
                    0 <= j < k && (#[trigger] self.transitions@[j]).1 == Transition::Char(c)
                        && s.contains(self.transitions@[j].0.0 as int) && self.transitions@[j].2.0
                        == b,
        )
    }

    /// The set of states reachable from `states` over one edge labelled
    /// `ch`, without taking epsilon edges.
    pub fn move_on_char(&self, states: &StateSet, ch: char) -> (r: StateSet)
        requires
            self.wf(),
            states.capacity() == self.state_count,
        ensures
            r.capacity() == self.state_count,
            r@ == self.move_spec(states@, ch),
    {
        let mut result = StateSet::new(self.state_count);
        let mut k: usize = 0;
        proof {
            assert(result@ =~= self.move_upto(states@, ch, 0));
        }
        while k < self.transitions.len()
            invariant
                self.wf(),
                states.capacity() == self.state_count,
                result.capacity() == self.state_count,
                result@ == self.move_upto(states@, ch, k as int),
                k <= self.transitions@.len(),
            decreases self.transitions@.len() - k,
        {
            let t = &self.transitions[k];
            let take = match t.1 {
                Transition::Char(c) => c == ch,
                Transition::Epsilon => false,
            };
            if take && states.contains(t.0.0) {
                result.insert(t.2.0);
                proof {
                    assert(result@ =~= self.move_upto(states@, ch, k as int + 1));
                }
            } else {
                proof {
                    assert(result@ =~= self.move_upto(states@, ch, k as int + 1));
                }
            }
            k = k + 1;
        }
        proof {
            assert forall|b: int| self.move_upto(states@, ch, self.transitions@.len() as int)
                .contains(b) implies self.move_spec(states@, ch).contains(b) by {
                let j = choose|j: int|
                    0 <= j < self.transitions@.len() && (#[trigger] self.transitions@[j]).1
                        == Transition::Char(ch) && states@.contains(self.transitions@[j].0.0 as int)
                        && self.transitions@[j].2.0 == b;
                assert(self.has_char(self.transitions@[j].0.0 as int, ch, b));
            }
            assert forall|b: int| self.move_spec(states@, ch).contains(b)
                implies self.move_upto(states@, ch, self.transitions@.len() as int).contains(b) by {
                let a = choose|a: int| states@.contains(a) && #[trigger] self.has_char(a, ch, b);
            }
            assert(result@ =~= self.move_spec(states@, ch));
        }
        result
    }
}

} // verus!

