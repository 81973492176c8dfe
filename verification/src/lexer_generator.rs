//! Building a scanner from a rule list, and running it: each rule's
//! regex is parsed and compiled into a Thompson NFA, the NFAs are
//! combined by subset construction into one DFA, and `tokenize` drives
//! the scanner over an input text, dispatching each match on its rule's
//! action and rendering the token lines of the output format.

use vstd::prelude::*;
use crate::regex_parser::RegexNode;
use crate::regex_parser::parse_regex;
use crate::regex_parser::derives_alt;
use crate::nfa::NFA;
use crate::nfa::StateId;
use crate::nfa::fresh_states;
use crate::nfa::thompson_edges;
use crate::dfa::DFA;
use crate::spec_parser::Spec;
use crate::spec_parser::Action;
use crate::spec_parser::dec_str;
use crate::spec_parser::usize_to_string;

verus! {

/// The automaton compiled from a regex text: the Thompson automaton of
/// some tree that parses the text.
pub open spec fn compiled_from(nfa: NFA, regex: Seq<char>) -> bool {
    exists|node: RegexNode|
        {
            &&& derives_alt(regex, 0, regex.len() as int, node)
            &&& nfa.state_count == 2 + fresh_states(node)
            &&& nfa.start_state == (StateId(0usize))
            &&& nfa.accept_states@ == seq![StateId(1usize)]
            &&& nfa.transitions@ == #[trigger] thompson_edges(node, StateId(0usize), StateId(1usize), 2)
        }
}

/// A DFA built for a rule list: the subset construction over Thompson
/// automata of trees that parse the rules' regexes, with each rule's
/// position as its priority value.
pub open spec fn dfa_for_rules(dfa: DFA, rules: Seq<crate::spec_parser::Rule>) -> bool {
    &&& crate::dfa::parented(dfa)
    &&& exists|nfas: Seq<(NFA, usize)>|
        {
            &&& #[trigger] dfa.subset_wf(nfas)
            &&& nfas.len() == rules.len()
            &&& forall|i: int|
                0 <= i < nfas.len() ==> (#[trigger] nfas[i]).1 == i && compiled_from(
                    nfas[i].0,
                    rules[i].regex@,
                )
        }
}

/// A rule's regex cannot be built: no tree parses it, or a tree that
/// parses it needs more states than the machine holds.
pub open spec fn rule_unbuildable(regex: Seq<char>) -> bool {
    ||| forall|n: RegexNode| !(#[trigger] derives_alt(regex, 0, regex.len() as int, n))
    ||| exists|n: RegexNode|
        #[trigger] derives_alt(regex, 0, regex.len() as int, n) && 2 + fresh_states(n)
            > usize::MAX
}

/// The number of fresh states the Thompson construction would allocate,
/// or `None` when it does not fit the machine.
fn fresh_states_exec(r: &RegexNode) -> (res: Option<usize>)
    ensures
        match res {
            Option::Some(v) => v == fresh_states(*r),
            Option::None => fresh_states(*r) > usize::MAX,
        },
    decreases *r,
{
    match r {
        RegexNode::Char(_) => Option::Some(0),
        RegexNode::Dot => Option::Some(0),
        RegexNode::CharClass(_) => Option::Some(0),
        RegexNode::NegatedCharClass(_) => Option::Some(0),
        RegexNode::Concatenation(l, rr) => {
            match (fresh_states_exec(l), fresh_states_exec(rr)) {
                (Option::Some(a), Option::Some(b)) => {
                    match a.checked_add(b) {
                        Option::Some(ab) => ab.checked_add(1),
                        Option::None => Option::None,
                    }
                },
                _ => Option::None,
            }
        },
        RegexNode::Alternation(l, rr) => {
            match (fresh_states_exec(l), fresh_states_exec(rr)) {
                (Option::Some(a), Option::Some(b)) => a.checked_add(b),
                _ => Option::None,
            }
        },
        RegexNode::Kleene(x) => {
            match fresh_states_exec(x) {
                Option::Some(a) => a.checked_add(2),
                Option::None => Option::None,
            }
        },
        RegexNode::Plus(x) => {
            match fresh_states_exec(x) {
                Option::Some(a) => {
                    match a.checked_mul(2) {
                        Option::Some(aa) => aa.checked_add(3),
                        Option::None => Option::None,
                    }
                },
                Option::None => Option::None,
            }
        },
        RegexNode::Optional(x) => fresh_states_exec(x),
    }
}

/// Compiles a rule list into its scanner DFA: each rule's regex becomes
/// a Thompson NFA, and the NFAs are combined by subset construction with
/// the rule's position as its priority value.
pub fn build_dfa(spec: &Spec) -> (r: Result<DFA, String>)
    ensures
        match r {
            Result::Ok(dfa) => dfa_for_rules(dfa, spec.rules@),
            Result::Err(_) => exists|i: int|
                0 <= i < spec.rules@.len() && #[trigger] rule_unbuildable(spec.rules@[i].regex@),
        },
{
    let mut nfas: Vec<(NFA, usize)> = Vec::new();
    let mut index: usize = 0;
    while index < spec.rules.len()
        invariant
            index <= spec.rules@.len(),
            nfas@.len() == index,
            forall|i: int|
                0 <= i < index ==> (#[trigger] nfas@[i]).1 == i && compiled_from(
                    nfas@[i].0,
                    spec.rules@[i].regex@,
                ),
            crate::dfa::nfas_wf(nfas@),
        decreases spec.rules@.len() - index,
    {
        let ast = match parse_regex(spec.rules[index].regex.as_str()) {
            Result::Ok(a) => a,
            Result::Err(e) => {
                proof {
                    assert(rule_unbuildable(spec.rules@[index as int].regex@));
                }
                let mut msg = "Error parsing regex '".to_owned();
                msg.append(spec.rules[index].regex.as_str());
                msg.append("': ");
                msg.append(e.as_str());
                return Result::Err(msg);
            },
        };
        let ghost gast0 = ast;
        let fresh = match fresh_states_exec(&ast) {
            Option::Some(f) => f,
            Option::None => {
                proof {
                    assert(derives_alt(
                        spec.rules@[index as int].regex@,
                        0,
                        spec.rules@[index as int].regex@.len() as int,
                        gast0,
                    ) && 2 + fresh_states(gast0) > usize::MAX);
                    assert(rule_unbuildable(spec.rules@[index as int].regex@));
                }
                return Result::Err("Regex needs more states than this machine holds".to_owned());
            },
        };
        if fresh > usize::MAX - 2 {
            proof {
                assert(derives_alt(
                    spec.rules@[index as int].regex@,
                    0,
                    spec.rules@[index as int].regex@.len() as int,
                    gast0,
                ) && 2 + fresh_states(gast0) > usize::MAX);
                assert(rule_unbuildable(spec.rules@[index as int].regex@));
            }
            return Result::Err("Regex needs more states than this machine holds".to_owned());
        }
        let nfa = NFA::from_regex(&ast);
        let ghost gast = ast;
        let ghost gnfa = nfa;
        nfas.push((nfa, index));
        proof {
            assert(gnfa.transitions@ == thompson_edges(gast, StateId(0usize), StateId(1usize), 2));
            assert(compiled_from(gnfa, spec.rules@[index as int].regex@));
        }
        index = index + 1;
    }
    let ghost gnfas = nfas@;
    let dfa = DFA::from_nfas(nfas);
    proof {
        assert(dfa.subset_wf(gnfas));
        assert(gnfas.len() == spec.rules@.len());
        assert(forall|i: int|
            0 <= i < gnfas.len() ==> (#[trigger] gnfas[i]).1 == i && compiled_from(
                gnfas[i].0,
                spec.rules@[i].regex@,
            ));
        assert(dfa_for_rules(dfa, spec.rules@));
    }
    Result::Ok(dfa)
}

/// The printed form of `EOF [line,col]`.
pub open spec fn eof_line(line: int, col: int) -> Seq<char> {
    seq!['E', 'O', 'F', ' ', '['] + dec_str(line as nat) + seq![','] + dec_str(col as nat) + seq![
        ']',
    ]
}

/// The printed form of a token: `NAME:lexeme [line,col]` when the lexeme
/// is kept, `NAME [line,col]` when it is not.
pub open spec fn token_line(
    name: Seq<char>,
    lex: Seq<char>,
    keep: bool,
    line: int,
    col: int,
) -> Seq<char> {
    (if keep {
        name + seq![':'] + lex
    } else {
        name
    }) + seq![' ', '['] + dec_str(line as nat) + seq![','] + dec_str(col as nat) + seq![']']
}

/// The token lines one scanner entry contributes: a rendered token for
/// an emitting rule, nothing for a skip or error rule, and the final
/// end-of-input line for the marker entry.
pub open spec fn line_out(
    t: (Seq<char>, int, int, Option<usize>),
    actions: Seq<Action>,
) -> Seq<Seq<char>> {
    match t.3 {
        Option::None => seq![eof_line(t.1, t.2)],
        Option::Some(ri) => if 0 <= ri < actions.len() {
            match actions[ri as int] {
                Action::Skip => Seq::empty(),
                Action::Error(_) => Seq::empty(),
                Action::Token { name, keep_lexeme } => seq![
                    token_line(name@, t.0, keep_lexeme, t.1, t.2),
                ],
            }
        } else {
            Seq::empty()
        },
    }
}

/// The diagnostics one scanner entry contributes: the message of an
/// error rule, nothing otherwise.
pub open spec fn diag_out(
    t: (Seq<char>, int, int, Option<usize>),
    actions: Seq<Action>,
) -> Seq<Seq<char>> {
    match t.3 {
        Option::None => Seq::empty(),
        Option::Some(ri) => if 0 <= ri < actions.len() {
            match actions[ri as int] {
                Action::Skip => Seq::empty(),
                Action::Error(msg) => seq![msg@],
                Action::Token { .. } => Seq::empty(),
            }
        } else {
            Seq::empty()
        },
    }
}

/// All token lines of a scanner run, in order.
pub open spec fn render_lines(
    toks: Seq<(Seq<char>, int, int, Option<usize>)>,
    actions: Seq<Action>,
) -> Seq<Seq<char>>
    decreases toks.len(),
{
    if toks.len() == 0 {
        Seq::empty()
    } else {
        line_out(toks.first(), actions) + render_lines(toks.drop_first(), actions)
    }
}

/// All diagnostics of a scanner run, in order.
pub open spec fn render_diags(
    toks: Seq<(Seq<char>, int, int, Option<usize>)>,
    actions: Seq<Action>,
) -> Seq<Seq<char>>
    decreases toks.len(),
{
    if toks.len() == 0 {
        Seq::empty()
    } else {
        diag_out(toks.first(), actions) + render_diags(toks.drop_first(), actions)
    }
}

/// Appending one entry appends its lines and diagnostics.
proof fn lemma_render_snoc(
    toks: Seq<(Seq<char>, int, int, Option<usize>)>,
    t: (Seq<char>, int, int, Option<usize>),
    actions: Seq<Action>,
)
    ensures
        render_lines(toks.push(t), actions) == render_lines(toks, actions) + line_out(t, actions),
        render_diags(toks.push(t), actions) == render_diags(toks, actions) + diag_out(t, actions),
    decreases toks.len(),
{
    if toks.len() == 0 {
        assert(toks.push(t).drop_first() =~= Seq::<(Seq<char>, int, int, Option<usize>)>::empty());
        assert(toks =~= Seq::<(Seq<char>, int, int, Option<usize>)>::empty());
        assert(render_lines(toks.push(t), actions) =~= render_lines(toks, actions) + line_out(
            t,
            actions,
        ));
        assert(render_diags(toks.push(t), actions) =~= render_diags(toks, actions) + diag_out(
            t,
            actions,
        ));
    } else {
        assert(toks.push(t).drop_first() =~= toks.drop_first().push(t));
        assert(toks.push(t).first() == toks.first());
        lemma_render_snoc(toks.drop_first(), t, actions);
        assert(render_lines(toks.push(t), actions) =~= render_lines(toks, actions) + line_out(
            t,
            actions,
        ));
        assert(render_diags(toks.push(t), actions) =~= render_diags(toks, actions) + diag_out(
            t,
            actions,
        ));
    }
}

/// The ghost values of a string list.
pub open spec fn str_views(v: Seq<String>) -> Seq<Seq<char>>
    decreases v.len(),
{
    if v.len() == 0 {
        Seq::empty()
    } else {
        str_views(v.drop_last()).push(v.last()@)
    }
}

/// `str_views` is the element-wise ghost value.
pub proof fn lemma_str_views(v: Seq<String>)
    ensures
        str_views(v).len() == v.len(),
        forall|i: int| 0 <= i < v.len() ==> #[trigger] str_views(v)[i] == v[i]@,
    decreases v.len(),
{
    if v.len() > 0 {
        lemma_str_views(v.drop_last());
        assert(forall|i: int| 0 <= i < v.len() - 1 ==> #[trigger] v.drop_last()[i] == v[i]);
    }
}

/// Appending a string appends its ghost value.
proof fn lemma_str_views_push(v: Seq<String>, x: String)
    ensures
        str_views(v.push(x)) == str_views(v).push(x@),
{
    assert(v.push(x).drop_last() =~= v);
    assert(v.push(x).last() == x);
}

/// Renders one emitted token line.
fn format_token(name: &String, lex: &String, keep: bool, line: usize, col: usize) -> (r: String)
    ensures
        r@ == token_line(name@, lex@, keep, line as int, col as int),
{
    let mut s = String::new();
    s.append(name.as_str());
    if keep {
        s.append(":");
        s.append(lex.as_str());
        proof {
            reveal_strlit(":");
            assert(s@ =~= name@ + seq![':'] + lex@);
        }
    }
    s.append(" [");
    let ln = usize_to_string(line);
    s.append(ln.as_str());
    s.append(",");
    let cn = usize_to_string(col);
    s.append(cn.as_str());
    s.append("]");
    proof {
        reveal_strlit(":");
        reveal_strlit(" [");
        reveal_strlit(",");
        reveal_strlit("]");
        assert(s@ =~= token_line(name@, lex@, keep, line as int, col as int));
    }
    s
}

/// Renders the final end-of-input line.
fn format_eof(line: usize, col: usize) -> (r: String)
    ensures
        r@ == eof_line(line as int, col as int),
{
    let mut s = "EOF [".to_owned();
    let ln = usize_to_string(line);
    s.append(ln.as_str());
    s.append(",");
    let cn = usize_to_string(col);
    s.append(cn.as_str());
    s.append("]");
    proof {
        reveal_strlit("EOF [");
        reveal_strlit(",");
        reveal_strlit("]");
        assert(s@ =~= eof_line(line as int, col as int));
    }
    s
}

/// Runs the scanner over `input` and dispatches every match on its
/// rule's action: emitting rules contribute a rendered token line, skip
/// rules nothing, error rules a diagnostic; the end-of-input marker
/// becomes the final token line.
pub fn tokenize(dfa: &DFA, actions: &Vec<Action>, input: &str) -> (r: (Vec<String>, Vec<String>))
    requires
        dfa.table_wf(),
        input@.len() < usize::MAX,
    ensures
        str_views(r.0@) == render_lines(dfa.scan_spec(input@, 0), actions@),
        str_views(r.1@) == render_diags(dfa.scan_spec(input@, 0), actions@),
{
    let raw = dfa.simulate(input);
    let ghost toks = dfa.scan_spec(input@, 0);
    let mut lines: Vec<String> = Vec::new();
    let mut diags: Vec<String> = Vec::new();
    let mut i: usize = 0;
    proof {
        assert(crate::dfa::token_views(raw@) == toks);
        assert(toks.subrange(0, 0) =~= Seq::<(Seq<char>, int, int, Option<usize>)>::empty());
        assert(str_views(lines@) =~= render_lines(toks.subrange(0, 0), actions@));
        assert(str_views(diags@) =~= render_diags(toks.subrange(0, 0), actions@));
    }
    while i < raw.len()
        invariant
            i <= raw@.len(),
            crate::dfa::token_views(raw@) == toks,
            toks.len() == raw@.len(),
            str_views(lines@) == render_lines(toks.subrange(0, i as int), actions@),
            str_views(diags@) == render_diags(toks.subrange(0, i as int), actions@),
        decreases raw@.len() - i,
    {
        let ghost tv = crate::dfa::token_view(raw@[i as int]);
        proof {
            assert(tv == toks[i as int]);
        }
        let entry = &raw[i];
        let ghost old_lines = lines@;
        let ghost old_diags = diags@;
        match entry.3 {
            Option::None => {
                let eof = format_eof(entry.1, entry.2);
                let ghost geof = eof;
                lines.push(eof);
                proof {
                    lemma_str_views_push(old_lines, geof);
                    assert(line_out(tv, actions@) =~= seq![eof_line(tv.1, tv.2)]);
                    assert(str_views(lines@) =~= str_views(old_lines) + line_out(tv, actions@));
                    assert(diag_out(tv, actions@) =~= Seq::<Seq<char>>::empty());
                    assert(str_views(diags@) =~= str_views(old_diags) + diag_out(tv, actions@));
                }
            },
            Option::Some(ri) => {
                if ri < actions.len() {
                    match &actions[ri] {
                        Action::Skip => {
                            proof {
                                assert(line_out(tv, actions@) =~= Seq::<Seq<char>>::empty());
                                assert(diag_out(tv, actions@) =~= Seq::<Seq<char>>::empty());
                                assert(str_views(lines@) =~= str_views(old_lines) + line_out(
                                    tv,
                                    actions@,
                                ));
                                assert(str_views(diags@) =~= str_views(old_diags) + diag_out(
                                    tv,
                                    actions@,
                                ));
                            }
                        },
                        Action::Error(msg) => {
                            let d = msg.clone();
                            let ghost gd = d;
                            diags.push(d);
                            proof {
                                lemma_str_views_push(old_diags, gd);
                                assert(gd@ == actions@[ri as int]->Error_0@);
                                assert(line_out(tv, actions@) =~= Seq::<Seq<char>>::empty());
                                assert(diag_out(tv, actions@) =~= seq![gd@]);
                                assert(str_views(lines@) =~= str_views(old_lines) + line_out(
                                    tv,
                                    actions@,
                                ));
                                assert(str_views(diags@) =~= str_views(old_diags) + diag_out(
                                    tv,
                                    actions@,
                                ));
                            }
                        },
                        Action::Token { name, keep_lexeme } => {
                            let out = format_token(name, &entry.0, *keep_lexeme, entry.1, entry.2);
                            let ghost gout = out;
                            lines.push(out);
                            proof {
                                lemma_str_views_push(old_lines, gout);
                                assert(line_out(tv, actions@) =~= seq![
                                    token_line(
                                        actions@[ri as int]->Token_name@,
                                        tv.0,
                                        actions@[ri as int]->Token_keep_lexeme,
                                        tv.1,
                                        tv.2,
                                    ),
                                ]);
                                assert(str_views(lines@) =~= str_views(old_lines) + line_out(
                                    tv,
                                    actions@,
                                ));
                                assert(str_views(diags@) =~= str_views(old_diags) + diag_out(
                                    tv,
                                    actions@,
                                ));
                            }
                        },
                    }
                } else {
                    proof {
                        assert(line_out(tv, actions@) =~= Seq::<Seq<char>>::empty());
                        assert(diag_out(tv, actions@) =~= Seq::<Seq<char>>::empty());
                        assert(str_views(lines@) =~= str_views(old_lines) + line_out(tv, actions@));
                        assert(str_views(diags@) =~= str_views(old_diags) + diag_out(tv, actions@));
                    }
                }
            },
        }
        proof {
            assert(toks.subrange(0, i as int + 1) =~= toks.subrange(0, i as int).push(
                toks[i as int],
            ));
            lemma_render_snoc(toks.subrange(0, i as int), toks[i as int], actions@);
        }
        i = i + 1;
    }
    proof {
        assert(toks.subrange(0, toks.len() as int) =~= toks);
    }
    (lines, diags)
}

} // verus!