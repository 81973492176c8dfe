//! The regular-expression surface: an abstract syntax tree, a derivation
//! relation stating which trees parse which texts, and a recursive-descent
//! parser for the grammar
//!
//! ```text
//! alt     := concat ('|' concat)*
//! concat  := postfix+
//! postfix := primary ('*' | '+' | '?')*
//! primary := '(' alt ')' | class | '.' | escape | literal
//! ```
//!
//! On success the parser returns a tree that derives the whole input at
//! alternation level.

use vstd::prelude::*;

verus! {

/// A node of the regular-expression syntax tree.
#[derive(Debug, PartialEq)]
pub enum RegexNode {
    Char(char),
    Dot,
    Concatenation(Box<RegexNode>, Box<RegexNode>),
    Alternation(Box<RegexNode>, Box<RegexNode>),
    Kleene(Box<RegexNode>),
    Plus(Box<RegexNode>),
    Optional(Box<RegexNode>),
    CharClass(Vec<char>),
    NegatedCharClass(Vec<char>),
}

/// What an escape sequence `\c` stands for: tab, newline, space for the
/// underscore, and the character itself for everything else.
pub open spec fn escape_of(c: char) -> char {
    if c == 't' {
        '\t'
    } else if c == 'n' {
        '\n'
    } else if c == '_' {
        ' '
    } else {
        c
    }
}

/// A character that stands for itself in a regex: anything but an
/// operator, a group or class opener, the dot and the escape lead-in.
pub open spec fn is_literal(c: char) -> bool {
    c != '(' && c != '[' && c != '.' && c != '\\' && c != '|' && c != ')' && c != '*' && c != '+'
        && c != '?'
}

/// The characters with codes `lo..=hi`, in increasing order.
pub open spec fn char_range_seq(lo: int, hi: int) -> Seq<char>
    decreases hi + 1 - lo,
{
    if lo > hi {
        Seq::empty()
    } else {
        seq![lo as char] + char_range_seq(lo + 1, hi)
    }
}

/// The meaning of a character-class body: reading from position `i` with
/// the items `acc` already collected, the finished item list and the
/// position just past the closing bracket.  A dash between two items
/// expands to the closed interval of ASCII codes; a dash first in the
/// class or before the closing bracket is an ordinary item.  `None` when
/// the class never closes or a range endpoint is not ASCII.
pub open spec fn class_body(s: Seq<char>, i: int, acc: Seq<char>) -> Option<(Seq<char>, int)>
    decreases s.len() - i,
{
    if i < 0 || i >= s.len() {
        Option::None
    } else if s[i] == ']' {
        Option::Some((acc, i + 1))
    } else if s[i] == '-' && acc.len() > 0 && i + 1 < s.len() && s[i + 1] != ']' {
        if (acc.last() as int) < 128 && (s[i + 1] as int) < 128 {
            class_body(
                s,
                i + 2,
                acc.drop_last() + char_range_seq(acc.last() as int, s[i + 1] as int),
            )
        } else {
            Option::None
        }
    } else {
        class_body(s, i + 1, acc.push(s[i]))
    }
}

/// A postfix operator character.
pub open spec fn is_op(c: char) -> bool {
    c == '*' || c == '+' || c == '?'
}

/// `n` is an alternation-level parse of `s[from..to)`.
pub open spec fn derives_alt(s: Seq<char>, from: int, to: int, n: RegexNode) -> bool
    decreases n, to - from, 3int,
{
    ||| (match n {
        RegexNode::Alternation(l, r) => exists|mid: int|
            from < mid && mid + 1 < to && #[trigger] s[mid] == '|' && derives_alt(s, from, mid, *l)
                && derives_concat(s, mid + 1, to, *r),
        _ => false,
    })
    ||| derives_concat(s, from, to, n)
}

/// `n` is a concatenation-level parse of `s[from..to)`.  The split
/// point's character conditions are forced rather than restrictive: no
/// postfix item can begin on an operator, a bar or a closing
/// parenthesis, so every genuine split satisfies them.
pub open spec fn derives_concat(s: Seq<char>, from: int, to: int, n: RegexNode) -> bool
    decreases n, to - from, 2int,
{
    ||| (match n {
        RegexNode::Concatenation(l, r) => exists|mid: int|
            #![trigger s[mid]]
            from < mid && mid < to && s[mid] != '|' && s[mid] != ')' && !is_op(s[mid])
                && derives_concat(s, from, mid, *l) && derives_postfix(s, mid, to, *r),
        _ => false,
    })
    ||| derives_postfix(s, from, to, n)
}

/// `n` is a postfix-level parse of `s[from..to)`.
pub open spec fn derives_postfix(s: Seq<char>, from: int, to: int, n: RegexNode) -> bool
    decreases n, to - from, 1int,
{
    ||| (match n {
        RegexNode::Kleene(x) => from < to - 1 && s[to - 1] == '*' && derives_postfix(
            s,
            from,
            to - 1,
            *x,
        ),
        RegexNode::Plus(x) => from < to - 1 && s[to - 1] == '+' && derives_postfix(
            s,
            from,
            to - 1,
            *x,
        ),
        RegexNode::Optional(x) => from < to - 1 && s[to - 1] == '?' && derives_postfix(
            s,
            from,
            to - 1,
            *x,
        ),
        _ => false,
    })
    ||| derives_primary(s, from, to, n)
}

/// `n` is a primary-level parse of `s[from..to)`: a parenthesised
/// alternation, a character class, the dot, an escape, or a literal.
pub open spec fn derives_primary(s: Seq<char>, from: int, to: int, n: RegexNode) -> bool
    decreases n, to - from, 0int,
{
    ||| (from + 2 <= to && s[from] == '(' && s[to - 1] == ')' && derives_alt(s, from + 1, to - 1, n))
    ||| (match n {
        RegexNode::Dot => to == from + 1 && s[from] == '.',
        RegexNode::Char(c) => {
            ||| (to == from + 1 && s[from] == c && is_literal(c))
            ||| (to == from + 2 && s[from] == '\\' && escape_of(s[from + 1]) == c)
        },
        RegexNode::CharClass(chars) => from < to && s[from] == '[' && s[from + 1] != '^'
            && class_body(s, from + 1, Seq::empty()) == Option::Some((chars@, to)),
        RegexNode::NegatedCharClass(chars) => from + 1 < to && s[from] == '[' && s[from + 1] == '^'
            && class_body(s, from + 2, Seq::empty()) == Option::Some((chars@, to)),
        _ => false,
    })
}


/// Every postfix parse from `q` ends at `b`, or earlier on an operator
/// character (a shorter run of the same operator tail).
pub open spec fn postfix_bounded(s: Seq<char>, q: int, b: int) -> bool {
    forall|to: int, n: RegexNode|
        to <= s.len() && #[trigger] derives_postfix(s, q, to, n) ==> q < to <= b && (to < b
            ==> is_op(s[to]))
}

/// No postfix parse at all starts at `q`.
pub open spec fn postfix_none(s: Seq<char>, q: int) -> bool {
    forall|to: int, n: RegexNode| to <= s.len() ==> !(#[trigger] derives_postfix(s, q, to, n))
}

/// Every concatenation parse from `q` ends at `b`, or earlier at a
/// position holding neither a bar nor a closing parenthesis.
pub open spec fn concat_bounded(s: Seq<char>, q: int, b: int) -> bool {
    forall|to: int, n: RegexNode|
        to <= s.len() && #[trigger] derives_concat(s, q, to, n) ==> q < to <= b && (to < b
            ==> s[to] != '|' && s[to] != ')')
}

/// Every concatenation parse from `q` ends strictly inside the text at a
/// position holding neither a bar nor a closing parenthesis.
pub open spec fn concat_loose(s: Seq<char>, q: int) -> bool {
    forall|to: int, n: RegexNode|
        to <= s.len() && #[trigger] derives_concat(s, q, to, n) ==> q < to < s.len() && s[to]
            != '|' && s[to] != ')'
}

/// Every alternation parse from `q` ends at `b`, or earlier at a
/// position not holding a closing parenthesis.
pub open spec fn alt_bounded(s: Seq<char>, q: int, b: int) -> bool {
    forall|to: int, n: RegexNode|
        to <= s.len() && #[trigger] derives_alt(s, q, to, n) ==> q < to <= b && (to < b ==> s[to]
            != ')')
}

/// Every alternation parse from `q` ends strictly inside the text at a
/// position not holding a closing parenthesis.
pub open spec fn alt_loose(s: Seq<char>, q: int) -> bool {
    forall|to: int, n: RegexNode|
        to <= s.len() && #[trigger] derives_alt(s, q, to, n) ==> q < to < s.len() && s[to] != ')'
}

/// No primary parse starts on an operator, a bar, a closing parenthesis,
/// or past the end of the text.
proof fn lemma_primary_dead_one(s: Seq<char>, q: int, to: int, n: RegexNode)
    requires
        0 <= q <= s.len(),
        q == s.len() || is_op(s[q]) || s[q] == '|' || s[q] == ')',
        to <= s.len(),
    ensures
        !derives_primary(s, q, to, n),
{
    if derives_primary(s, q, to, n) {
        if q + 2 <= to && s[q] == '(' && s[to - 1] == ')' {
            assert(q < s.len());
            assert(false);
        }
        match n {
            RegexNode::Dot => {
                assert(q < s.len());
            },
            RegexNode::Char(c) => {
                if to == q + 1 && s[q] == c && is_literal(c) {
                    assert(q < s.len());
                    assert(!is_literal(s[q]));
                }
                if to == q + 2 && s[q] == '\\' {
                    assert(q < s.len());
                }
            },
            RegexNode::CharClass(_) => {
                assert(q < s.len());
            },
            RegexNode::NegatedCharClass(_) => {
                assert(q < s.len());
            },
            _ => {},
        }
    }
}

/// No postfix parse starts there either: the operator cases only peel
/// characters off the right and bottom out at a primary.
proof fn lemma_postfix_dead_one(s: Seq<char>, q: int, to: int, n: RegexNode)
    requires
        0 <= q <= s.len(),
        q == s.len() || is_op(s[q]) || s[q] == '|' || s[q] == ')',
        to <= s.len(),
    ensures
        !derives_postfix(s, q, to, n),
    decreases n,
{
    if derives_postfix(s, q, to, n) {
        lemma_primary_dead_one(s, q, to, n);
        match n {
            RegexNode::Kleene(x) => {
                lemma_postfix_dead_one(s, q, to - 1, *x);
            },
            RegexNode::Plus(x) => {
                lemma_postfix_dead_one(s, q, to - 1, *x);
            },
            RegexNode::Optional(x) => {
                lemma_postfix_dead_one(s, q, to - 1, *x);
            },
            _ => {},
        }
        assert(false);
    }
}

/// When no primary parse starts at `q`, no postfix parse does.
proof fn lemma_postfix_none_from_primary(s: Seq<char>, q: int, to: int, n: RegexNode)
    requires
        to <= s.len(),
        forall|to2: int, n2: RegexNode|
            to2 <= s.len() ==> !(#[trigger] derives_primary(s, q, to2, n2)),
    ensures
        !derives_postfix(s, q, to, n),
    decreases n,
{
    if derives_postfix(s, q, to, n) {
        assert(!derives_primary(s, q, to, n));
        match n {
            RegexNode::Kleene(x) => {
                lemma_postfix_none_from_primary(s, q, to - 1, *x);
            },
            RegexNode::Plus(x) => {
                lemma_postfix_none_from_primary(s, q, to - 1, *x);
            },
            RegexNode::Optional(x) => {
                lemma_postfix_none_from_primary(s, q, to - 1, *x);
            },
            _ => {},
        }
        assert(false);
    }
}

/// A postfix parse spans its primary plus some prefix of the operator
/// run: when primary parses from `pos` end exactly at `u` and the
/// operators run to `b`, every postfix end lies in `[u, b]`, ending
/// early only on an operator.
proof fn lemma_postfix_ends(s: Seq<char>, pos: int, u: int, b: int, to: int, n: RegexNode)
    requires
        0 <= pos < u <= b <= s.len(),
        primary_unique(s, pos, u),
        forall|k: int| u <= k < b ==> is_op(#[trigger] s[k]),
        b < s.len() ==> !is_op(s[b]),
        to <= s.len(),
        derives_postfix(s, pos, to, n),
    ensures
        u <= to <= b,
        to < b ==> is_op(s[to]),
    decreases n,
{
    if derives_primary(s, pos, to, n) {
        assert(to == u);
    } else {
        match n {
            RegexNode::Kleene(x) => {
                lemma_postfix_ends(s, pos, u, b, to - 1, *x);
            },
            RegexNode::Plus(x) => {
                lemma_postfix_ends(s, pos, u, b, to - 1, *x);
            },
            RegexNode::Optional(x) => {
                lemma_postfix_ends(s, pos, u, b, to - 1, *x);
            },
            _ => {
                assert(false);
            },
        }
    }
}


/// Primary parses from `q` all end exactly at `u`.
pub open spec fn primary_unique(s: Seq<char>, q: int, u: int) -> bool {
    forall|to: int, n: RegexNode|
        to <= s.len() && #[trigger] derives_primary(s, q, to, n) ==> to == u
}

/// No primary parse at all starts at `q`.
pub open spec fn primary_none(s: Seq<char>, q: int) -> bool {
    forall|to: int, n: RegexNode| to <= s.len() ==> !(#[trigger] derives_primary(s, q, to, n))
}

/// A chain of item boundaries as the concatenation loop lays them down:
/// increasing, each bounding the postfix parses of its item, interior
/// boundaries holding continuing characters, nothing parsing past the
/// last.
pub open spec fn chain_ok(s: Seq<char>, b: Seq<int>) -> bool {
    &&& b.len() >= 1
    &&& (forall|i: int| 0 <= i < b.len() ==> 0 <= #[trigger] b[i] <= s.len())
    &&& (forall|i: int| 0 <= i < b.len() - 1 ==> #[trigger] b[i] < b[i + 1])
    &&& (forall|i: int| 0 <= i < b.len() ==> #[trigger] b[i] <= b.last())
    &&& (forall|i: int| 0 <= i < b.len() - 1 ==> #[trigger] b[i] < b.last())
    &&& (forall|i: int| 0 <= i < b.len() - 1 ==> postfix_bounded(s, #[trigger] b[i], b[i + 1]))
    &&& (forall|i: int|
        0 < i < b.len() - 1 ==> (#[trigger] b[i]) < s.len() && s[b[i]] != '|' && s[b[i]] != ')')
    &&& postfix_none(s, b.last())
}

/// Any concatenation parse from the chain's start ends at the last
/// boundary, at an interior boundary, or early inside an operator run.
proof fn lemma_concat_chain(s: Seq<char>, b: Seq<int>, to: int, n: RegexNode)
    requires
        chain_ok(s, b),
        to <= s.len(),
        derives_concat(s, b[0], to, n),
    ensures
        b.len() >= 2,
        b[0] < to <= b.last(),
        to == b.last() || (to < b.last() && is_op(s[to])) || (exists|i: int|
            0 < i < b.len() - 1 && #[trigger] b[i] == to),
    decreases n,
{
    let start = b[0];
    if derives_postfix(s, start, to, n) {
        if b.len() == 1 {
            assert(!derives_postfix(s, b.last(), to, n));
            assert(false);
        }
        assert(postfix_bounded(s, b[0], b[1]));
        assert(start < to <= b[1] && (to < b[1] ==> is_op(s[to])));
        if to == b[1] {
            if b.len() > 2 {
                assert(0 < 1 < b.len() - 1 && b[1int] == to);
            }
        }
    } else {
        match n {
            RegexNode::Concatenation(l, r) => {
                let mid = choose|mid: int|
                    #![trigger s[mid]]
                    b[0] < mid && mid < to && s[mid] != '|' && s[mid] != ')' && !is_op(s[mid])
                        && derives_concat(s, b[0], mid, *l) && derives_postfix(s, mid, to, *r);
                assert(b[0] < mid && mid < to && derives_concat(s, b[0], mid, *l)
                    && derives_postfix(s, mid, to, *r));
                lemma_concat_chain(s, b, mid, *l);
                if mid == b.last() {
                    assert(!derives_postfix(s, b.last(), to, *r));
                    assert(false);
                } else if mid < b.last() && is_op(s[mid]) {
                    lemma_postfix_dead_one(s, mid, to, *r);
                    assert(false);
                } else {
                    let i = choose|i: int| 0 < i < b.len() - 1 && #[trigger] b[i] == mid;
                    assert(postfix_bounded(s, b[i], b[i + 1]));
                    assert(mid < to <= b[i + 1] && (to < b[i + 1] ==> is_op(s[to])));
                    if to == b[i + 1] {
                        if i + 1 < b.len() - 1 {
                            assert(0 < i + 1 < b.len() - 1 && b[i + 1] == to);
                        } else {
                            assert(to == b.last());
                        }
                    } else {
                        assert(to < b[i + 1] <= b.last());
                    }
                }
            },
            _ => {
                assert(false);
            },
        }
    }
}

/// The alternative segments as the alternation loop lays them down:
/// `m[j]` starts segment `j`; each complete segment's concatenation
/// parses stop at the bar before the next; the final segment is bounded
/// by `fin`, or loose when parsing failed inside it.
pub open spec fn segs_ok(s: Seq<char>, m: Seq<int>, fin: int, failed: bool) -> bool {
    &&& m.len() >= 1
    &&& (forall|j: int| 0 <= j < m.len() ==> 0 <= #[trigger] m[j] <= s.len())
    &&& (forall|j: int| 0 <= j < m.len() - 1 ==> #[trigger] m[j] < m[j + 1])
    &&& (forall|j: int| 0 <= j < m.len() - 1 ==> concat_bounded(s, #[trigger] m[j], m[j + 1] - 1))
    &&& (forall|j: int|
        0 <= j < m.len() - 1 ==> 0 <= m[j + 1] - 1 < s.len() && s[#[trigger] m[j + 1] - 1] == '|')
    &&& (forall|j: int| !failed && 0 <= j < m.len() ==> #[trigger] m[j] <= fin)
    &&& (if failed {
        concat_loose(s, m.last())
    } else {
        concat_bounded(s, m.last(), fin) && fin <= s.len() && (fin == s.len() || s[fin] == ')')
    })
}

/// Any alternation parse from the first segment's start ends at a bar
/// mark, at the final bound, or at a position holding neither a bar nor
/// a closing parenthesis.
proof fn lemma_alt_chain(s: Seq<char>, m: Seq<int>, fin: int, failed: bool, to: int, n: RegexNode)
    requires
        segs_ok(s, m, fin, failed),
        to <= s.len(),
        derives_alt(s, m[0], to, n),
    ensures
        m[0] < to,
        !failed ==> to <= fin,
        (exists|j: int| 0 <= j < m.len() - 1 && #[trigger] m[j + 1] - 1 == to) || (!failed && to
            == fin) || (to < s.len() && s[to] != '|' && s[to] != ')'),
        failed ==> to < s.len() && s[to] != ')',
    decreases n,
{
    let start = m[0];
    if derives_concat(s, start, to, n) {
        if m.len() == 1 {
            if failed {
                assert(start < to < s.len() && s[to] != '|' && s[to] != ')');
            } else {
                assert(start < to <= fin && (to < fin ==> s[to] != '|' && s[to] != ')'));
            }
        } else {
            assert(concat_bounded(s, m[0], m[1] - 1));
            assert(start < to <= m[1] - 1 && (to < m[1] - 1 ==> s[to] != '|' && s[to] != ')'));
            if to == m[1] - 1 {
                assert(0 <= 0 < m.len() - 1 && m[0int + 1] - 1 == to);
            }
        }
    } else {
        match n {
            RegexNode::Alternation(l, r) => {
                let mid = choose|mid: int|
                    m[0] < mid && mid + 1 < to && #[trigger] s[mid] == '|' && derives_alt(
                        s,
                        m[0],
                        mid,
                        *l,
                    ) && derives_concat(s, mid + 1, to, *r);
                assert(m[0] < mid && mid + 1 < to && s[mid] == '|' && derives_alt(s, m[0], mid, *l)
                    && derives_concat(s, mid + 1, to, *r));
                lemma_alt_chain(s, m, fin, failed, mid, *l);
                if !failed && mid == fin {
                    assert(mid < s.len());
                    assert(s[fin] == ')');
                    assert(false);
                }
                if mid < s.len() && s[mid] != '|' {
                    assert(false);
                }
                let j = choose|j: int| 0 <= j < m.len() - 1 && #[trigger] m[j + 1] - 1 == mid;
                assert(m[j + 1] == mid + 1);
                if j + 1 == m.len() - 1 {
                    // the final segment starts right after this bar
                    assert(m.last() == mid + 1);
                    if failed {
                        assert(mid + 1 < to < s.len() && s[to] != '|' && s[to] != ')');
                    } else {
                        assert(mid + 1 < to <= fin && (to < fin ==> s[to] != '|' && s[to]
                            != ')'));
                    }
                } else {
                    assert(concat_bounded(s, m[j + 1], m[j + 2] - 1));
                    assert(mid + 1 < to <= m[j + 2] - 1 && (to < m[j + 2] - 1 ==> s[to] != '|'
                        && s[to] != ')'));
                    if to == m[j + 2] - 1 {
                        assert(0 <= j + 1 < m.len() - 1 && m[j + 1 + 1] - 1 == to);
                    }
                    assert(!failed ==> to <= fin) by {
                        if !failed {
                            assert(m[j + 2] <= fin);
                        }
                    }
                }
            },
            _ => {
                assert(false);
            },
        }
    }
}

/// A parse error carries one of the parser's fixed messages, each
/// naming the offending construct.
pub open spec fn regex_err_text(msg: Seq<char>) -> bool {
    ||| msg == "Empty concatenation"@
    ||| msg == "Incomplete escape sequence"@
    ||| msg == "Unterminated character class"@
    ||| msg == "Character-class range endpoint is not ASCII"@
    ||| msg == "Missing closing parenthesis"@
    ||| msg == "Unexpected operator with no operand"@
    ||| msg == "Unexpected end of input"@
    ||| msg == "Unmatched closing parenthesis"@
}

/// Parses a regular expression.  On success the returned tree derives
/// the whole text at alternation level; trailing text that cannot extend
/// the parse (an unmatched closing parenthesis) is an error.
pub fn parse_regex(regex: &str) -> (r: Result<RegexNode, String>)
    ensures
        match r {
            Result::Ok(node) => derives_alt(regex@, 0, regex@.len() as int, node),
            Result::Err(msg) => (forall|n: RegexNode|
                !(#[trigger] derives_alt(regex@, 0, regex@.len() as int, n))) && regex_err_text(
                msg@,
            ),
        },
{
    let n = regex.unicode_len();
    let mut chars: Vec<char> = Vec::new();
    let mut ki: usize = 0;
    while ki < n
        invariant
            ki <= n,
            n == regex@.len(),
            chars@ == regex@.subrange(0, ki as int),
        decreases n - ki,
    {
        chars.push(regex.get_char(ki));
        proof {
            assert(chars@ =~= regex@.subrange(0, ki as int + 1));
        }
        ki = ki + 1;
    }
    proof {
        assert(chars@ =~= regex@);
    }
    let mut parser = RegexParser { chars, pos: 0 };
    let node = match parser.parse_alternation() {
        Result::Ok(node) => node,
        Result::Err(e) => {
            proof {
                assert forall|nd: RegexNode| !(#[trigger] derives_alt(
                    regex@,
                    0,
                    regex@.len() as int,
                    nd,
                )) by {
                    if derives_alt(regex@, 0, regex@.len() as int, nd) {
                        assert(alt_loose(parser.chars@, 0));
                        assert((regex@.len() as int) < (regex@.len() as int));
                    }
                }
            }
            return Result::Err(e);
        },
    };
    if parser.pos != parser.chars.len() {
        proof {
            assert forall|nd: RegexNode| !(#[trigger] derives_alt(
                regex@,
                0,
                regex@.len() as int,
                nd,
            )) by {
                if derives_alt(regex@, 0, regex@.len() as int, nd) {
                    assert(alt_bounded(parser.chars@, 0, parser.pos as int));
                    assert(regex@.len() <= parser.pos);
                }
            }
        }
        return Result::Err("Unmatched closing parenthesis".to_string());
    }
    Result::Ok(node)
}

struct RegexParser {
    chars: Vec<char>,
    pos: usize,
}

impl RegexParser {
    /// alt := concat ('|' concat)*; stops at a closing parenthesis or at
    /// the end of the text.
    fn parse_alternation(&mut self) -> (r: Result<RegexNode, String>)
        requires
            old(self).pos <= old(self).chars@.len(),
        ensures
            final(self).chars@ == old(self).chars@,
            match r {
                Result::Ok(node) => {
                    &&& old(self).pos < final(self).pos <= final(self).chars@.len()
                    &&& derives_alt(
                        final(self).chars@,
                        old(self).pos as int,
                        final(self).pos as int,
                        node,
                    )
                    &&& (final(self).pos == final(self).chars@.len() || final(self).chars@[final(self).pos as int] == ')')
                    &&& alt_bounded(final(self).chars@, old(self).pos as int, final(self).pos as int)
                },
                Result::Err(msg) => alt_loose(final(self).chars@, old(self).pos as int)
                    && regex_err_text(msg@),
            },
        decreases old(self).chars@.len() - old(self).pos, 4int,
    {
        let ghost start = self.pos as int;
        let ghost mut marks: Seq<int> = seq![start];
        let mut left = match self.parse_concatenation() {
            Result::Ok(node) => node,
            Result::Err(e) => {
                proof {
                    let s = self.chars@;
                    assert(marks.last() == start && marks[0] == start);
                    assert(segs_ok(s, marks, 0, true));
                    assert forall|to: int, nd: RegexNode|
                        to <= s.len() && #[trigger] derives_alt(s, start, to, nd)
                        implies start < to < s.len() && s[to] != ')' by {
                        lemma_alt_chain(s, marks, 0, true, to, nd);
                    }
                }
                return Result::Err(e);
            },
        };
        while self.pos < self.chars.len() && self.chars[self.pos] == '|'
            invariant
                self.chars@ == old(self).chars@,
                start == old(self).pos as int,
                start < self.pos <= self.chars@.len(),
                derives_alt(self.chars@, start, self.pos as int, left),
                self.pos == self.chars@.len() || self.chars@[self.pos as int] == ')'
                    || self.chars@[self.pos as int] == '|',
                marks.len() >= 1,
                marks[0] == start,
                marks.last() <= self.pos as int,
                forall|j: int| 0 <= j < marks.len() ==> 0 <= #[trigger] marks[j] <= self.chars@.len(),
                forall|j: int| 0 <= j < marks.len() ==> #[trigger] marks[j] <= marks.last(),
                forall|j: int| 0 <= j < marks.len() - 1 ==> #[trigger] marks[j] < marks[j + 1],
                forall|j: int|
                    0 <= j < marks.len() - 1 ==> concat_bounded(
                        self.chars@,
                        #[trigger] marks[j],
                        marks[j + 1] - 1,
                    ),
                forall|j: int|
                    0 <= j < marks.len() - 1 ==> 0 <= marks[j + 1] - 1 < self.chars@.len()
                        && self.chars@[#[trigger] marks[j + 1] - 1] == '|',
                concat_bounded(self.chars@, marks.last(), self.pos as int),
            decreases self.chars@.len() - self.pos,
        {
            let ghost mid = self.pos as int;
            let ghost prev = left;
            self.pos = self.pos + 1;
            proof {
                let ghost oma = marks;
                marks = marks.push(mid + 1);
                assert(marks.last() == mid + 1);
                assert forall|j: int| 0 <= j < marks.len() - 1 implies concat_bounded(
                    self.chars@,
                    #[trigger] marks[j],
                    marks[j + 1] - 1,
                ) by {
                    if j < oma.len() - 1 {
                        assert(marks[j] == oma[j] && marks[j + 1] == oma[j + 1]);
                        assert(concat_bounded(self.chars@, oma[j], oma[j + 1] - 1));
                    } else {
                        assert(marks[j] == oma.last() && marks[j + 1] == mid + 1);
                        assert(concat_bounded(self.chars@, oma.last(), mid));
                    }
                }
                assert forall|j: int| 0 <= j < marks.len() - 1 implies 0 <= marks[j + 1] - 1
                    < self.chars@.len() && self.chars@[#[trigger] marks[j + 1] - 1] == '|' by {
                    if j < oma.len() - 1 {
                        assert(marks[j + 1] == oma[j + 1]);
                    } else {
                        assert(marks[j + 1] == mid + 1);
                        assert(self.chars@[mid] == '|');
                    }
                }
            }
            let right = match self.parse_concatenation() {
                Result::Ok(node) => node,
                Result::Err(e) => {
                    proof {
                        let s = self.chars@;
                        assert(concat_loose(s, marks.last()));
                        assert(segs_ok(s, marks, 0, true));
                        assert forall|to: int, nd: RegexNode|
                            to <= s.len() && #[trigger] derives_alt(s, start, to, nd)
                            implies start < to < s.len() && s[to] != ')' by {
                            lemma_alt_chain(s, marks, 0, true, to, nd);
                        }
                    }
                    return Result::Err(e);
                },
            };
            let ghost rend = self.pos as int;
            let ghost gright = right;
            left = RegexNode::Alternation(Box::new(left), Box::new(right));
            proof {
                assert(self.chars@[mid] == '|');
                assert(*(left->Alternation_0) == prev);
                assert(*(left->Alternation_1) == gright);
                assert(derives_alt(self.chars@, start, mid, *(left->Alternation_0)));
                assert(derives_concat(self.chars@, mid + 1, rend, *(left->Alternation_1)));
                assert(derives_alt(self.chars@, start, rend, left));
            }
        }
        proof {
            let s = self.chars@;
            let fin = self.pos as int;
            assert(fin == s.len() || s[fin] == ')');
            assert(segs_ok(s, marks, fin, false));
            assert forall|to: int, nd: RegexNode|
                to <= s.len() && #[trigger] derives_alt(s, start, to, nd) implies start < to <= fin
                && (to < fin ==> s[to] != ')') by {
                lemma_alt_chain(s, marks, fin, false, to, nd);
                if to < fin {
                    if exists|j: int| 0 <= j < marks.len() - 1 && #[trigger] marks[j + 1] - 1
                        == to {
                        let j = choose|j: int|
                            0 <= j < marks.len() - 1 && #[trigger] marks[j + 1] - 1 == to;
                        assert(s[to] == '|');
                    }
                }
            }
        }
        Result::Ok(left)
    }

    /// concat := postfix+; an empty alternative is an error.
    fn parse_concatenation(&mut self) -> (r: Result<RegexNode, String>)
        requires
            old(self).pos <= old(self).chars@.len(),
        ensures
            final(self).chars@ == old(self).chars@,
            match r {
                Result::Ok(node) => {
                    &&& old(self).pos < final(self).pos <= final(self).chars@.len()
                    &&& derives_concat(
                        final(self).chars@,
                        old(self).pos as int,
                        final(self).pos as int,
                        node,
                    )
                    &&& (final(self).pos == final(self).chars@.len() || final(self).chars@[final(self).pos as int] == ')' || final(self).chars@[final(self).pos as int] == '|')
                    &&& concat_bounded(
                        final(self).chars@,
                        old(self).pos as int,
                        final(self).pos as int,
                    )
                },
                Result::Err(msg) => concat_loose(final(self).chars@, old(self).pos as int)
                    && regex_err_text(msg@),
            },
        decreases old(self).chars@.len() - old(self).pos, 3int,
    {
        let ghost start = self.pos as int;
        if self.pos >= self.chars.len() || self.chars[self.pos] == '|' || self.chars[self.pos]
            == ')' {
            proof {
                let s = self.chars@;
                assert forall|to: int, nd: RegexNode| to <= s.len() implies !(
                #[trigger] derives_postfix(s, start, to, nd)) by {
                    lemma_postfix_dead_one(s, start, to, nd);
                }
                let bs: Seq<int> = seq![start];
                assert(bs[0] == start && bs.last() == start);
                assert(chain_ok(s, bs));
                assert forall|to: int, nd: RegexNode|
                    to <= s.len() && #[trigger] derives_concat(s, start, to, nd)
                    implies start < to < s.len() && s[to] != '|' && s[to] != ')' by {
                    lemma_concat_chain(s, bs, to, nd);
                }
            }
            return Result::Err("Empty concatenation".to_string());
        }
        let mut node = match self.parse_postfix() {
            Result::Ok(node) => node,
            Result::Err(e) => {
                proof {
                    let s = self.chars@;
                    let bs: Seq<int> = seq![start];
                    assert(bs[0] == start && bs.last() == start);
                    assert(chain_ok(s, bs));
                    assert forall|to: int, nd: RegexNode|
                        to <= s.len() && #[trigger] derives_concat(s, start, to, nd)
                        implies start < to < s.len() && s[to] != '|' && s[to] != ')' by {
                        lemma_concat_chain(s, bs, to, nd);
                    }
                }
                return Result::Err(e);
            },
        };
        let ghost mut bs: Seq<int> = seq![start, self.pos as int];
        while self.pos < self.chars.len() && self.chars[self.pos] != '|' && self.chars[self.pos]
            != ')'
            invariant
                self.chars@ == old(self).chars@,
                start == old(self).pos as int,
                start < self.pos <= self.chars@.len(),
                derives_concat(self.chars@, start, self.pos as int, node),
                self.pos == self.chars@.len() || !is_op(self.chars@[self.pos as int]),
                bs.len() >= 2,
                bs[0] == start,
                bs.last() == self.pos as int,
                forall|i: int| 0 <= i < bs.len() ==> 0 <= #[trigger] bs[i] <= self.chars@.len(),
                forall|i: int| 0 <= i < bs.len() ==> #[trigger] bs[i] <= bs.last(),
                forall|i: int| 0 <= i < bs.len() - 1 ==> #[trigger] bs[i] < bs[i + 1],
                forall|i: int| 0 <= i < bs.len() - 1 ==> #[trigger] bs[i] < bs.last(),
                forall|i: int|
                    0 <= i < bs.len() - 1 ==> postfix_bounded(
                        self.chars@,
                        #[trigger] bs[i],
                        bs[i + 1],
                    ),
                forall|i: int|
                    0 < i < bs.len() - 1 ==> (#[trigger] bs[i]) < self.chars@.len()
                        && self.chars@[bs[i]] != '|' && self.chars@[bs[i]] != ')',
            decreases self.chars@.len() - self.pos,
        {
            let ghost mid = self.pos as int;
            let ghost prev = node;
            let next = match self.parse_postfix() {
                Result::Ok(node) => node,
                Result::Err(e) => {
                    proof {
                        let s = self.chars@;
                        assert(postfix_none(s, bs.last()));
                        assert(chain_ok(s, bs));
                        assert forall|to: int, nd: RegexNode|
                            to <= s.len() && #[trigger] derives_concat(s, start, to, nd)
                            implies start < to < s.len() && s[to] != '|' && s[to] != ')' by {
                            lemma_concat_chain(s, bs, to, nd);
                            if to == bs.last() {
                                assert(s[mid] != '|' && s[mid] != ')' && mid < s.len());
                            } else if !(to < bs.last() && is_op(s[to])) {
                                let i = choose|i: int|
                                    0 < i < bs.len() - 1 && #[trigger] bs[i] == to;
                            }
                        }
                    }
                    return Result::Err(e);
                },
            };
            let ghost pend = self.pos as int;
            let ghost gnext = next;
            node = RegexNode::Concatenation(Box::new(node), Box::new(next));
            proof {
                let ghost obs = bs;
                bs = bs.push(pend);
                assert(bs.last() == pend);
                assert forall|i: int| 0 <= i < bs.len() - 1 implies postfix_bounded(
                    self.chars@,
                    #[trigger] bs[i],
                    bs[i + 1],
                ) by {
                    if i < obs.len() - 1 {
                        assert(bs[i] == obs[i] && bs[i + 1] == obs[i + 1]);
                        assert(postfix_bounded(self.chars@, obs[i], obs[i + 1]));
                    } else {
                        assert(bs[i] == obs.last() && bs[i + 1] == pend);
                        assert(postfix_bounded(self.chars@, mid, pend));
                    }
                }
                assert forall|i: int| 0 < i < bs.len() - 1 implies (#[trigger] bs[i])
                    < self.chars@.len() && self.chars@[bs[i]] != '|' && self.chars@[bs[i]]
                    != ')' by {
                    if i < obs.len() - 1 {
                        assert(bs[i] == obs[i]);
                    } else {
                        assert(bs[i] == obs.last() && obs.last() == mid);
                    }
                }
                assert(self.chars@[mid] != '|' && self.chars@[mid] != ')' && !is_op(
                    self.chars@[mid],
                ));
                assert(*(node->Concatenation_0) == prev);
                assert(*(node->Concatenation_1) == gnext);
                assert(derives_concat(self.chars@, start, mid, *(node->Concatenation_0)));
                assert(derives_postfix(self.chars@, mid, pend, *(node->Concatenation_1)));
                assert(derives_concat(self.chars@, start, pend, node));
            }
        }
        proof {
            let s = self.chars@;
            let p2 = self.pos as int;
            assert forall|to: int, nd: RegexNode| to <= s.len() implies !(
            #[trigger] derives_postfix(s, p2, to, nd)) by {
                lemma_postfix_dead_one(s, p2, to, nd);
            }
            assert(chain_ok(s, bs));
            assert forall|to: int, nd: RegexNode|
                to <= s.len() && #[trigger] derives_concat(s, start, to, nd) implies start < to
                <= p2 && (to < p2 ==> s[to] != '|' && s[to] != ')') by {
                lemma_concat_chain(s, bs, to, nd);
                if to < p2 && !(is_op(s[to])) {
                    let i = choose|i: int| 0 < i < bs.len() - 1 && #[trigger] bs[i] == to;
                }
            }
        }
        Result::Ok(node)
    }

    /// postfix := primary ('*' | '+' | '?')*.
    fn parse_postfix(&mut self) -> (r: Result<RegexNode, String>)
        requires
            old(self).pos <= old(self).chars@.len(),
        ensures
            final(self).chars@ == old(self).chars@,
            match r {
                Result::Ok(node) => {
                    &&& old(self).pos < final(self).pos <= final(self).chars@.len()
                    &&& derives_postfix(
                        final(self).chars@,
                        old(self).pos as int,
                        final(self).pos as int,
                        node,
                    )
                    &&& (final(self).pos == final(self).chars@.len() || !is_op(
                        final(self).chars@[final(self).pos as int],
                    ))
                    &&& postfix_bounded(
                        final(self).chars@,
                        old(self).pos as int,
                        final(self).pos as int,
                    )
                },
                Result::Err(msg) => postfix_none(final(self).chars@, old(self).pos as int)
                    && regex_err_text(msg@),
            },
        decreases old(self).chars@.len() - old(self).pos, 2int,
    {
        let ghost start = self.pos as int;
        let mut node = match self.parse_primary() {
            Result::Ok(node) => node,
            Result::Err(e) => {
                proof {
                    let s = self.chars@;
                    assert forall|to: int, nd: RegexNode| to <= s.len() implies !(
                    #[trigger] derives_postfix(s, start, to, nd)) by {
                        lemma_postfix_none_from_primary(s, start, to, nd);
                    }
                }
                return Result::Err(e);
            },
        };
        let ghost u = self.pos as int;
        while self.pos < self.chars.len() && (self.chars[self.pos] == '*' || self.chars[self.pos]
            == '+' || self.chars[self.pos] == '?')
            invariant
                self.chars@ == old(self).chars@,
                start == old(self).pos as int,
                start < self.pos <= self.chars@.len(),
                derives_postfix(self.chars@, start, self.pos as int, node),
                start < u <= self.pos as int,
                primary_unique(self.chars@, start, u),
                forall|k: int| u <= k < self.pos as int ==> is_op(#[trigger] self.chars@[k]),
            decreases self.chars@.len() - self.pos,
        {
            let op = self.chars[self.pos];
            let ghost prev = node;
            self.pos = self.pos + 1;
            if op == '*' {
                node = RegexNode::Kleene(Box::new(node));
            } else if op == '+' {
                node = RegexNode::Plus(Box::new(node));
            } else {
                node = RegexNode::Optional(Box::new(node));
            }
            proof {
                assert(self.chars@[self.pos - 1] == op);
                assert(derives_postfix(self.chars@, start, self.pos - 1, prev));
                assert(derives_postfix(self.chars@, start, self.pos as int, node));
            }
        }
        proof {
            let s = self.chars@;
            let p2 = self.pos as int;
            assert forall|to: int, nd: RegexNode|
                to <= s.len() && #[trigger] derives_postfix(s, start, to, nd) implies start < to
                <= p2 && (to < p2 ==> is_op(s[to])) by {
                lemma_postfix_ends(s, start, u, p2, to, nd);
            }
        }
        Result::Ok(node)
    }

    /// primary := '(' alt ')' | class | '.' | escape | literal.
    fn parse_primary(&mut self) -> (r: Result<RegexNode, String>)
        requires
            old(self).pos <= old(self).chars@.len(),
        ensures
            final(self).chars@ == old(self).chars@,
            match r {
                Result::Ok(node) => {
                    &&& old(self).pos < final(self).pos <= final(self).chars@.len()
                    &&& derives_primary(
                        final(self).chars@,
                        old(self).pos as int,
                        final(self).pos as int,
                        node,
                    )
                    &&& primary_unique(
                        final(self).chars@,
                        old(self).pos as int,
                        final(self).pos as int,
                    )
                },
                Result::Err(msg) => primary_none(final(self).chars@, old(self).pos as int)
                    && regex_err_text(msg@),
            },
        decreases old(self).chars@.len() - old(self).pos, 1int,
    {
        let ghost start = self.pos as int;
        if self.pos >= self.chars.len() {
            proof {
                assert forall|to: int, nd: RegexNode| to <= self.chars@.len() implies !(
                #[trigger] derives_primary(self.chars@, start, to, nd)) by {
                    lemma_primary_dead_one(self.chars@, start, to, nd);
                }
            }
            return Result::Err("Unexpected end of input".to_string());
        }
        let c = self.chars[self.pos];
        if c == '(' {
            self.pos = self.pos + 1;
            let node = match self.parse_alternation() {
                Result::Ok(node) => node,
                Result::Err(e) => {
                    proof {
                        let s = self.chars@;
                        assert forall|to: int, nd: RegexNode| to <= s.len() implies !(
                        #[trigger] derives_primary(s, start, to, nd)) by {
                            if derives_primary(s, start, to, nd) {
                                assert(s[start] == '(');
                                if start + 2 <= to && s[to - 1] == ')' && derives_alt(
                                    s,
                                    start + 1,
                                    to - 1,
                                    nd,
                                ) {
                                    assert(to - 1 < s.len() && s[to - 1] != ')');
                                }
                                assert(false);
                            }
                        }
                    }
                    return Result::Err(e);
                },
            };
            let ghost q = self.pos as int;
            if self.pos >= self.chars.len() || self.chars[self.pos] != ')' {
                proof {
                    let s = self.chars@;
                    assert(q == s.len());
                    assert forall|to: int, nd: RegexNode| to <= s.len() implies !(
                    #[trigger] derives_primary(s, start, to, nd)) by {
                        if derives_primary(s, start, to, nd) {
                            assert(s[start] == '(');
                            if start + 2 <= to && s[to - 1] == ')' && derives_alt(
                                s,
                                start + 1,
                                to - 1,
                                nd,
                            ) {
                                assert(start + 1 < to - 1 <= q);
                                assert(to - 1 < s.len() && s[to - 1] != ')');
                            }
                            assert(false);
                        }
                    }
                }
                return Result::Err("Missing closing parenthesis".to_string());
            }
            self.pos = self.pos + 1;
            proof {
                let s = self.chars@;
                let p2 = self.pos as int;
                assert(derives_primary(s, start, p2, node));
                assert forall|to: int, nd: RegexNode|
                    to <= s.len() && #[trigger] derives_primary(s, start, to, nd) implies to
                    == p2 by {
                    assert(s[start] == '(');
                    if start + 2 <= to && s[to - 1] == ')' && derives_alt(s, start + 1, to - 1, nd) {
                        assert(start + 1 < to - 1 <= q);
                        assert(to - 1 < q ==> s[to - 1] != ')');
                        assert(to - 1 == q);
                    } else {
                        assert(false);
                    }
                }
            }
            Result::Ok(node)
        } else if c == '[' {
            self.parse_char_class()
        } else if c == '.' {
            self.pos = self.pos + 1;
            proof {
                let s = self.chars@;
                assert(derives_primary(s, start, self.pos as int, RegexNode::Dot));
                assert forall|to: int, nd: RegexNode|
                    to <= s.len() && #[trigger] derives_primary(s, start, to, nd) implies to
                    == start + 1 by {
                    assert(s[start] == '.');
                }
            }
            Result::Ok(RegexNode::Dot)
        } else if c == '\\' {
            self.parse_escape()
        } else if c != '|' && c != ')' && c != '*' && c != '+' && c != '?' {
            self.pos = self.pos + 1;
            proof {
                let s = self.chars@;
                lemma_literal_derives(s, start, c);
                assert forall|to: int, nd: RegexNode|
                    to <= s.len() && #[trigger] derives_primary(s, start, to, nd) implies to
                    == start + 1 by {
                    assert(s[start] == c && is_literal(c));
                }
            }
            Result::Ok(RegexNode::Char(c))
        } else {
            proof {
                assert forall|to: int, nd: RegexNode| to <= self.chars@.len() implies !(
                #[trigger] derives_primary(self.chars@, start, to, nd)) by {
                    lemma_primary_dead_one(self.chars@, start, to, nd);
                }
            }
            Result::Err("Unexpected operator with no operand".to_string())
        }
    }

    /// escape := '\' X, with tab, newline and space abbreviations.
    fn parse_escape(&mut self) -> (r: Result<RegexNode, String>)
        requires
            old(self).pos < old(self).chars@.len(),
            old(self).chars@[old(self).pos as int] == '\\',
        ensures
            final(self).chars@ == old(self).chars@,
            match r {
                Result::Ok(node) => {
                    &&& old(self).pos < final(self).pos <= final(self).chars@.len()
                    &&& derives_primary(
                        final(self).chars@,
                        old(self).pos as int,
                        final(self).pos as int,
                        node,
                    )
                    &&& primary_unique(
                        final(self).chars@,
                        old(self).pos as int,
                        final(self).pos as int,
                    )
                },
                Result::Err(msg) => primary_none(final(self).chars@, old(self).pos as int)
                    && regex_err_text(msg@),
            },
        decreases old(self).chars@.len() - old(self).pos, 0int,
    {
        let ghost start = self.pos as int;
        let n = self.chars.len();
        self.pos = self.pos + 1;
        if self.pos >= n {
            proof {
                assert forall|to: int, nd: RegexNode| to <= self.chars@.len() implies !(
                #[trigger] derives_primary(self.chars@, start, to, nd)) by {
                    if derives_primary(self.chars@, start, to, nd) {
                        assert(self.chars@[start] == '\\');
                        match nd {
                            RegexNode::Char(c) => {
                                if to == start + 2 {
                                    assert(start + 1 < self.chars@.len());
                                }
                            },
                            _ => {},
                        }
                    }
                }
            }
            return Result::Err("Incomplete escape sequence".to_string());
        }
        let c = self.chars[self.pos];
        self.pos = self.pos + 1;
        let lit = if c == 't' {
            '\t'
        } else if c == 'n' {
            '\n'
        } else if c == '_' {
            ' '
        } else {
            c
        };
        proof {
            assert(escape_of(self.chars@[start + 1]) == lit);
            assert(derives_primary(self.chars@, start, self.pos as int, RegexNode::Char(lit)));
            assert forall|to: int, nd: RegexNode|
                to <= self.chars@.len() && #[trigger] derives_primary(
                    self.chars@,
                    start,
                    to,
                    nd,
                ) implies to == start + 2 by {
                assert(self.chars@[start] == '\\');
            }
        }
        Result::Ok(RegexNode::Char(lit))
    }

    /// class := '[' '^'? item+ ']', with `a-b` ranges.
    fn parse_char_class(&mut self) -> (r: Result<RegexNode, String>)
        requires
            old(self).pos < old(self).chars@.len(),
            old(self).chars@[old(self).pos as int] == '[',
        ensures
            final(self).chars@ == old(self).chars@,
            match r {
                Result::Ok(node) => {
                    &&& old(self).pos < final(self).pos <= final(self).chars@.len()
                    &&& derives_primary(
                        final(self).chars@,
                        old(self).pos as int,
                        final(self).pos as int,
                        node,
                    )
                    &&& primary_unique(
                        final(self).chars@,
                        old(self).pos as int,
                        final(self).pos as int,
                    )
                },
                Result::Err(msg) => primary_none(final(self).chars@, old(self).pos as int)
                    && regex_err_text(msg@),
            },
        decreases old(self).chars@.len() - old(self).pos, 0int,
    {
        let ghost start = self.pos as int;
        let n = self.chars.len();
        self.pos = self.pos + 1;
        let negated = if self.pos < self.chars.len() && self.chars[self.pos] == '^' {
            self.pos = self.pos + 1;
            true
        } else {
            false
        };
        let ghost body = self.pos as int;
        let mut items: Vec<char> = Vec::new();
        while self.pos < self.chars.len() && self.chars[self.pos] != ']'
            invariant
                0 <= body <= self.pos <= self.chars@.len(),
                self.chars@ == old(self).chars@,
                start == old(self).pos as int,
                0 <= start < body,
                body <= start + 2,
                self.chars@[start] == '[',
                negated ==> body == start + 2 && start + 1 < self.chars@.len()
                    && self.chars@[start + 1] == '^',
                !negated ==> body == start + 1 && (start + 1 >= self.chars@.len()
                    || self.chars@[start + 1] != '^'),
                class_body(self.chars@, body, Seq::empty()) == class_body(
                    self.chars@,
                    self.pos as int,
                    items@,
                ),
            decreases self.chars@.len() - self.pos,
        {
            let c = self.chars[self.pos];
            if c == '-' && items.len() > 0 && self.pos + 1 < self.chars.len() && self.chars[self.pos
                + 1] != ']' {
                let hi = self.chars[self.pos + 1];
                let lo = items[items.len() - 1];
                let lo_code = char_code(lo);
                let hi_code = char_code(hi);
                if lo_code >= 128 || hi_code >= 128 {
                    proof {
                        assert(items@.len() > 0 && items@.last() == lo);
                        assert(class_body(self.chars@, self.pos as int, items@) is None);
                        assert(class_body(self.chars@, body, Seq::empty()) is None);
                        lemma_class_none(self.chars@, start, body, negated);
                    }
                    return Result::Err("Character-class range endpoint is not ASCII".to_string());
                }
                items.pop();
                let ghost items_mid = items@;
                let mut code = lo_code;
                proof {
                    assert(items@ =~= items_mid + char_range_seq(lo_code as int, lo_code - 1));
                }
                while code <= hi_code
                    invariant
                        0 <= lo_code < 128,
                        hi_code < 128,
                        lo_code <= code,
                        code == lo_code || code <= hi_code + 1,
                        items@ == items_mid + char_range_seq(lo_code as int, code - 1),
                    decreases hi_code + 1 - code,
                {
                    let item = (code as u8) as char;
                    items.push(item);
                    proof {
                        lemma_char_range_snoc(lo_code as int, code as int);
                        assert(items@ =~= items_mid + char_range_seq(lo_code as int, code as int));
                    }
                    code = code + 1;
                }
                proof {
                    if lo_code > hi_code {
                        assert(char_range_seq(lo_code as int, hi_code as int) =~= Seq::<
                            char,
                        >::empty());
                        assert(char_range_seq(lo_code as int, code - 1) =~= Seq::<char>::empty());
                    }
                    assert(items@ == items_mid + char_range_seq(lo_code as int, hi_code as int));
                }
                self.pos = self.pos + 2;
            } else {
                items.push(c);
                self.pos = self.pos + 1;
                proof {
                    assert(items@ =~= items@.subrange(0, items@.len() - 1).push(c));
                }
            }
        }
        if self.pos >= self.chars.len() {
            proof {
                assert(class_body(self.chars@, self.pos as int, items@) is None);
                assert(class_body(self.chars@, body, Seq::empty()) is None);
                lemma_class_none(self.chars@, start, body, negated);
            }
            return Result::Err("Unterminated character class".to_string());
        }
        self.pos = self.pos + 1;
        proof {
            assert(class_body(self.chars@, body, Seq::empty()) == Option::Some(
                (items@, self.pos as int),
            ));
        }
        let node = if negated {
            RegexNode::NegatedCharClass(items)
        } else {
            RegexNode::CharClass(items)
        };
        proof {
            assert(derives_primary(self.chars@, start, self.pos as int, node));
            let s = self.chars@;
            let p2 = self.pos as int;
            assert forall|to: int, nd: RegexNode|
                to <= s.len() && #[trigger] derives_primary(s, start, to, nd) implies to == p2 by {
                assert(s[start] == '[');
                match nd {
                    RegexNode::CharClass(c) => {
                        if negated {
                            assert(s[start + 1] == '^');
                        } else {
                            assert(class_body(s, start + 1, Seq::empty()) == Option::Some(
                                (items@, p2),
                            ));
                        }
                    },
                    RegexNode::NegatedCharClass(c) => {
                        if negated {
                            assert(class_body(s, start + 2, Seq::empty()) == Option::Some(
                                (items@, p2),
                            ));
                        } else {
                            if start + 1 < s.len() {
                                assert(s[start + 1] != '^');
                            }
                        }
                    },
                    _ => {},
                }
            }
        }
        Result::Ok(node)
    }
}

/// When the class body yields nothing from `body` (the position after
/// the bracket and the optional caret), no primary parse starts at the
/// bracket.
proof fn lemma_class_none(s: Seq<char>, start: int, body: int, negated: bool)
    requires
        0 <= start < s.len(),
        s[start] == '[',
        negated ==> body == start + 2 && start + 1 < s.len() && s[start + 1] == '^',
        !negated ==> body == start + 1,
        !negated ==> (start + 1 >= s.len() || s[start + 1] != '^'),
        class_body(s, body, Seq::empty()) is None,
    ensures
        primary_none(s, start),
{
    assert forall|to: int, nd: RegexNode| to <= s.len() implies !(#[trigger] derives_primary(
        s,
        start,
        to,
        nd,
    )) by {
        if derives_primary(s, start, to, nd) {
            match nd {
                RegexNode::CharClass(c) => {
                    if negated {
                        assert(s[start + 1] == '^');
                    }
                },
                RegexNode::NegatedCharClass(c) => {
                    if negated {
                    } else {
                        if start + 1 < s.len() {
                            assert(s[start + 1] != '^');
                        } else {
                            assert(to <= s.len());
                        }
                    }
                },
                _ => {},
            }
        }
    }
}

/// A literal character derives itself.
proof fn lemma_literal_derives(s: Seq<char>, from: int, c: char)
    requires
        0 <= from < s.len(),
        s[from] == c,
        is_literal(c),
    ensures
        derives_primary(s, from, from + 1, RegexNode::Char(c)),
{
}

/// The numeric code of a character.
fn char_code(c: char) -> (r: u32)
    ensures
        r as int == c as int,
{
    c as u32
}

/// Extending a range by one character appends it.
proof fn lemma_char_range_snoc(lo: int, hi: int)
    requires
        lo <= hi,
    ensures
        char_range_seq(lo, hi) == char_range_seq(lo, hi - 1) + seq![hi as char],
    decreases hi - lo,
{
    if lo == hi {
        assert(char_range_seq(lo + 1, hi) =~= Seq::<char>::empty());
        assert(char_range_seq(lo, hi - 1) =~= Seq::<char>::empty());
        assert(char_range_seq(lo, hi) =~= char_range_seq(lo, hi - 1) + seq![hi as char]);
    } else {
        lemma_char_range_snoc(lo + 1, hi);
        assert(char_range_seq(lo, hi) =~= char_range_seq(lo, hi - 1) + seq![hi as char]);
    }
}

} // verus!
