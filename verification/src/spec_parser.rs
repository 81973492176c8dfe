//! The rule-file surface: one rule per non-blank line, of the shape
//! `REGEX ACTION` split on the first space, where the action is
//! `(SKIP)`, `(ERR) "MESSAGE"`, or `NAME true|false`.

use vstd::prelude::*;

verus! {

/// What the scanner does when a rule wins a match.
#[derive(Debug, Clone)]
pub enum Action {
    Skip,
    Error(String),
    Token { name: String, keep_lexeme: bool },
}

/// One lexical rule: a regular expression and its action.  The rule's
/// position in the list is its priority: lower index wins ties.
#[derive(Debug, Clone)]
pub struct Rule {
    pub regex: String,
    pub action: Action,
}

/// An ordered rule list.
#[derive(Debug)]
pub struct Spec {
    pub rules: Vec<Rule>,
}

/// ASCII whitespace that line trimming removes.
pub open spec fn is_ws(c: char) -> bool {
    c == ' ' || c == '\t' || c == '\r'
}

/// `s` without leading whitespace.
pub open spec fn trim_front(s: Seq<char>) -> Seq<char>
    decreases s.len(),
{
    if s.len() > 0 && is_ws(s.first()) {
        trim_front(s.drop_first())
    } else {
        s
    }
}

/// `s` without trailing whitespace.
pub open spec fn trim_back(s: Seq<char>) -> Seq<char>
    decreases s.len(),
{
    if s.len() > 0 && is_ws(s.last()) {
        trim_back(s.drop_last())
    } else {
        s
    }
}

/// `s` without leading or trailing whitespace.
pub open spec fn trim_spec(s: Seq<char>) -> Seq<char> {
    trim_back(trim_front(s))
}

/// Index of the first newline at or after `from`, or the length.
pub open spec fn next_nl(s: Seq<char>, from: int) -> int
    decreases s.len() - from,
{
    if from < 0 || from >= s.len() {
        s.len() as int
    } else if s[from] == '\n' {
        from
    } else {
        next_nl(s, from + 1)
    }
}

/// Index of the first space in `s`, or `None`.
pub open spec fn first_space(s: Seq<char>) -> Option<int>
    decreases s.len(),
{
    if s.len() == 0 {
        Option::None
    } else if s.first() == ' ' {
        Option::Some(0int)
    } else {
        match first_space(s.drop_first()) {
            Option::Some(i) => Option::Some(i + 1),
            Option::None => Option::None,
        }
    }
}

/// The characters of `(SKIP)`.
pub open spec fn skip_lit() -> Seq<char> {
    seq!['(', 'S', 'K', 'I', 'P', ')']
}

/// The characters of `(ERR)`.
pub open spec fn err_lit() -> Seq<char> {
    seq!['(', 'E', 'R', 'R', ')']
}

/// The characters of `true`.
pub open spec fn true_lit() -> Seq<char> {
    seq!['t', 'r', 'u', 'e']
}

/// The characters of `false`.
pub open spec fn false_lit() -> Seq<char> {
    seq!['f', 'a', 'l', 's', 'e']
}

/// The trimmed action text `t` means the action `a`: the skip marker;
/// the error marker followed by a quoted message; or a name and a
/// literal `true` or `false`, separated by whitespace.
pub open spec fn action_matches(t: Seq<char>, a: Action) -> bool {
    match a {
        Action::Skip => t == skip_lit(),
        Action::Error(msg) => {
            &&& t.len() >= 5
            &&& t.subrange(0, 5) == err_lit()
            &&& {
                let e = trim_spec(t.subrange(5, t.len() as int));
                e.len() >= 2 && e.first() == '"' && e.last() == '"' && msg@ == e.subrange(
                    1,
                    e.len() - 1,
                )
            }
        },
        Action::Token { name, keep_lexeme } => {
            let i = first_ws_at(t, 0);
            let j = first_non_ws_at(t, i);
            &&& t != skip_lit()
            &&& !(t.len() >= 5 && t.subrange(0, 5) == err_lit())
            &&& 0 < i
            &&& j < t.len()
            &&& (forall|k: int| j <= k < t.len() ==> !is_ws(#[trigger] t[k]))
            &&& name@ == t.subrange(0, i)
            &&& (if keep_lexeme {
                t.subrange(j, t.len() as int) == true_lit()
            } else {
                t.subrange(j, t.len() as int) == false_lit()
            })
        },
    }
}

/// Index of the first whitespace at or after `from`, or the length.
pub open spec fn first_ws_at(t: Seq<char>, from: int) -> int
    decreases t.len() - from,
{
    if from < 0 || from >= t.len() {
        t.len() as int
    } else if is_ws(t[from]) {
        from
    } else {
        first_ws_at(t, from + 1)
    }
}

/// Index of the first non-whitespace at or after `from`, or the length.
pub open spec fn first_non_ws_at(t: Seq<char>, from: int) -> int
    decreases t.len() - from,
{
    if from < 0 || from >= t.len() {
        t.len() as int
    } else if !is_ws(t[from]) {
        from
    } else {
        first_non_ws_at(t, from + 1)
    }
}

/// The first whitespace is where a scan says.
proof fn lemma_first_ws_is(t: Seq<char>, from: int, e: int)
    requires
        0 <= from <= e <= t.len(),
        forall|k: int| from <= k < e ==> !is_ws(#[trigger] t[k]),
        e < t.len() ==> is_ws(t[e]),
    ensures
        first_ws_at(t, from) == e,
    decreases e - from,
{
    if from < e {
        lemma_first_ws_is(t, from + 1, e);
    }
}

/// The first non-whitespace is where a scan says.
proof fn lemma_first_non_ws_is(t: Seq<char>, from: int, e: int)
    requires
        0 <= from <= e <= t.len(),
        forall|k: int| from <= k < e ==> is_ws(#[trigger] t[k]),
        e < t.len() ==> !is_ws(t[e]),
    ensures
        first_non_ws_at(t, from) == e,
    decreases e - from,
{
    if from < e {
        lemma_first_non_ws_is(t, from + 1, e);
    }
}

/// The trimmed line `t` means the rule: the text before the first space
/// is the regex, the rest is the action.
pub open spec fn rule_matches(t: Seq<char>, rule: Rule) -> bool {
    match first_space(t) {
        Option::None => false,
        Option::Some(sp) => {
            &&& rule.regex@ == t.subrange(0, sp)
            &&& action_matches(trim_spec(t.subrange(sp + 1, t.len() as int)), rule.action)
        },
    }
}

/// No action at all means this trimmed text.
pub open spec fn no_action_for(t: Seq<char>) -> bool {
    forall|act: Action| !(#[trigger] action_matches(t, act))
}

/// No rule at all means this trimmed line.
pub open spec fn no_rule_for(t: Seq<char>) -> bool {
    forall|rule: Rule| !(#[trigger] rule_matches(t, rule))
}

/// The rules are exactly those of the non-blank lines of `s` from
/// position `p` on, in order.
pub open spec fn rules_from(s: Seq<char>, p: int, rules: Seq<Rule>) -> bool
    decreases s.len() + 1 - p,
    via rules_from_decreases
{
    if p < 0 || p >= s.len() {
        rules.len() == 0
    } else {
        let e = next_nl(s, p);
        let t = trim_spec(s.subrange(p, e));
        if t.len() == 0 {
            rules_from(s, e + 1, rules)
        } else {
            rules.len() > 0 && rule_matches(t, rules.first()) && rules_from(
                s,
                e + 1,
                rules.drop_first(),
            )
        }
    }
}

#[via_fn]
proof fn rules_from_decreases(s: Seq<char>, p: int, rules: Seq<Rule>) {
    if 0 <= p < s.len() {
        lemma_next_nl(s, p);
    }
}

/// The 1-based number of the first non-blank line from position `p` on
/// that no rule means, counting the current line as `ln`; `None` when
/// every remaining line is blank or well formed.
pub open spec fn first_bad_line(s: Seq<char>, p: int, ln: nat) -> Option<nat>
    decreases s.len() + 1 - p,
    via first_bad_line_decreases
{
    if p < 0 || p >= s.len() {
        Option::None
    } else {
        let e = next_nl(s, p);
        let t = trim_spec(s.subrange(p, e));
        if t.len() == 0 {
            first_bad_line(s, e + 1, (ln + 1) as nat)
        } else if exists|rule: Rule| #[trigger] rule_matches(t, rule) {
            first_bad_line(s, e + 1, (ln + 1) as nat)
        } else {
            Option::Some(ln)
        }
    }
}

#[via_fn]
proof fn first_bad_line_decreases(s: Seq<char>, p: int, ln: nat) {
    if 0 <= p < s.len() {
        lemma_next_nl(s, p);
    }
}

/// `next_nl` stays in range and finds a newline or the end.
pub proof fn lemma_next_nl(s: Seq<char>, from: int)
    requires
        0 <= from <= s.len(),
    ensures
        from <= next_nl(s, from) <= s.len(),
        next_nl(s, from) < s.len() ==> s[next_nl(s, from)] == '\n',
        forall|k: int| from <= k < next_nl(s, from) ==> s[k] != '\n',
    decreases s.len() - from,
{
    if from < s.len() && s[from] != '\n' {
        lemma_next_nl(s, from + 1);
    }
}

/// The first newline is where the scan says: nothing before `e` is a
/// newline, and `e` is one or the end.
proof fn lemma_next_nl_is(s: Seq<char>, from: int, e: int)
    requires
        0 <= from <= e <= s.len(),
        forall|k: int| from <= k < e ==> s[k] != '\n',
        e < s.len() ==> s[e] == '\n',
    ensures
        next_nl(s, from) == e,
{
    lemma_next_nl(s, from);
    let x = next_nl(s, from);
    if x < e {
        assert(s[x] == '\n');
    }
    if x > e {
        assert(s[e] != '\n');
    }
}

/// Dropping a known run of leading whitespace is what `trim_front` does.
proof fn lemma_trim_front_window(s: Seq<char>, a: int)
    requires
        0 <= a <= s.len(),
        forall|i: int| 0 <= i < a ==> is_ws(#[trigger] s[i]),
        a < s.len() ==> !is_ws(s[a]),
    ensures
        trim_front(s) == s.subrange(a, s.len() as int),
    decreases a,
{
    if a == 0 {
        assert(s.subrange(0, s.len() as int) =~= s);
    } else {
        assert(is_ws(s.first()));
        assert(forall|i: int|
            0 <= i < a - 1 ==> is_ws(#[trigger] s.drop_first()[i]) == is_ws(s[i + 1]));
        lemma_trim_front_window(s.drop_first(), a - 1);
        assert(s.drop_first().subrange(a - 1, s.drop_first().len() as int) =~= s.subrange(
            a,
            s.len() as int,
        ));
    }
}

/// Dropping a known run of trailing whitespace is what `trim_back` does.
proof fn lemma_trim_back_window(s: Seq<char>, b: int)
    requires
        0 <= b <= s.len(),
        forall|i: int| b <= i < s.len() ==> is_ws(#[trigger] s[i]),
        b > 0 ==> !is_ws(s[b - 1]),
    ensures
        trim_back(s) == s.subrange(0, b),
    decreases s.len(),
{
    if b == s.len() {
        if s.len() > 0 {
            assert(!is_ws(s.last()));
        }
        assert(s.subrange(0, b) =~= s);
    } else {
        assert(is_ws(s.last()));
        lemma_trim_back_window(s.drop_last(), b);
        assert(s.drop_last().subrange(0, b) =~= s.subrange(0, b));
    }
}

/// A window scan computes the trim: everything before `a` and from `b`
/// on is whitespace, and the window edges are not.
proof fn lemma_trim_window(s: Seq<char>, a: int, b: int)
    requires
        0 <= a <= b <= s.len(),
        forall|i: int| 0 <= i < a ==> is_ws(#[trigger] s[i]),
        forall|i: int| b <= i < s.len() ==> is_ws(#[trigger] s[i]),
        a < b ==> !is_ws(s[a]) && !is_ws(s[b - 1]),
        a == b ==> a == s.len(),
    ensures
        trim_spec(s) == s.subrange(a, b),
{
    if a == b {
        lemma_trim_front_window(s, a);
        let f = s.subrange(a, s.len() as int);
        assert(f.len() == 0);
        assert(trim_back(f) == f);
        assert(f =~= s.subrange(a, b));
    } else {
        lemma_trim_front_window(s, a);
        let f = s.subrange(a, s.len() as int);
        assert(forall|i: int|
            b - a <= i < f.len() ==> is_ws(#[trigger] f[i]) == is_ws(s[i + a]));
        lemma_trim_back_window(f, b - a);
        assert(f.subrange(0, b - a) =~= s.subrange(a, b));
    }
}

/// The first space is where the scan says.
proof fn lemma_first_space_is(s: Seq<char>, k: int)
    requires
        0 <= k <= s.len(),
        forall|i: int| 0 <= i < k ==> s[i] != ' ',
        k < s.len() ==> s[k] == ' ',
    ensures
        k < s.len() ==> first_space(s) == Option::Some(k),
        k == s.len() ==> first_space(s) is None,
    decreases k,
{
    if s.len() > 0 && s.first() != ' ' {
        assert(forall|i: int|
            0 <= i < k - 1 ==> s.drop_first()[i] == s[i + 1]);
        lemma_first_space_is(s.drop_first(), k - 1);
    }
}

/// The decimal digit character for `d`.
pub open spec fn dec_digit(d: int) -> char {
    (48 + d) as char
}

/// The decimal numeral of `n`, most significant digit first.
pub open spec fn dec_str(n: nat) -> Seq<char>
    decreases n,
{
    if n < 10 {
        seq![dec_digit(n as int)]
    } else {
        dec_str(n / 10) + seq![dec_digit((n % 10) as int)]
    }
}

/// Appends one decimal digit.
fn push_digit(s: &mut String, d: usize)
    requires
        d < 10,
    ensures
        final(s)@ == old(s)@ + seq![dec_digit(d as int)],
{
    if d == 0 {
        s.append("0");
        proof {
            reveal_strlit("0");
        }
    } else if d == 1 {
        s.append("1");
        proof {
            reveal_strlit("1");
        }
    } else if d == 2 {
        s.append("2");
        proof {
            reveal_strlit("2");
        }
    } else if d == 3 {
        s.append("3");
        proof {
            reveal_strlit("3");
        }
    } else if d == 4 {
        s.append("4");
        proof {
            reveal_strlit("4");
        }
    } else if d == 5 {
        s.append("5");
        proof {
            reveal_strlit("5");
        }
    } else if d == 6 {
        s.append("6");
        proof {
            reveal_strlit("6");
        }
    } else if d == 7 {
        s.append("7");
        proof {
            reveal_strlit("7");
        }
    } else if d == 8 {
        s.append("8");
        proof {
            reveal_strlit("8");
        }
    } else {
        s.append("9");
        proof {
            reveal_strlit("9");
        }
    }
    proof {
        assert(s@ =~= old(s)@ + seq![dec_digit(d as int)]);
    }
}

/// Appends the decimal numeral of `n`, most significant digit first.
fn push_decimal(s: &mut String, n: usize)
    ensures
        final(s)@ == old(s)@ + dec_str(n as nat),
    decreases n,
{
    if n >= 10 {
        push_decimal(s, n / 10);
    }
    push_digit(s, n % 10);
    proof {
        assert(s@ =~= old(s)@ + dec_str(n as nat));
    }
}

/// The decimal numeral of `n`.
pub fn usize_to_string(n: usize) -> (r: String)
    ensures
        r@ == dec_str(n as nat),
{
    let mut s = String::new();
    push_decimal(&mut s, n);
    proof {
        assert(s@ =~= dec_str(n as nat));
    }
    s
}

/// The message opens by naming the 1-based line it concerns.
pub open spec fn names_line(msg: Seq<char>, line: nat) -> bool {
    let p = "Line "@ + dec_str(line) + ": "@;
    msg.len() >= p.len() && msg.subrange(0, p.len() as int) == p
}

/// An error message that names the 1-based line it concerns.
fn line_err(line_num: usize, what: &str) -> (r: String)
    ensures
        r@ == "Line "@ + dec_str(line_num as nat) + ": "@ + what@,
        names_line(r@, line_num as nat),
{
    let mut s = "Line ".to_owned();
    let num = usize_to_string(line_num);
    s.append(num.as_str());
    s.append(": ");
    s.append(what);
    proof {
        let p = "Line "@ + dec_str(line_num as nat) + ": "@;
        assert(s@.subrange(0, p.len() as int) =~= p);
    }
    s
}

/// Whether trimming removes this character.
fn is_ws_exec(c: char) -> (r: bool)
    ensures
        r == is_ws(c),
{
    c == ' ' || c == '\t' || c == '\r'
}

/// Trims the window `[lo, hi)` of `chars`, returning the sub-window that
/// `trim_spec` of the corresponding text denotes.
fn trim_window(chars: &Vec<char>, lo: usize, hi: usize) -> (r: (usize, usize))
    requires
        lo <= hi <= chars@.len(),
    ensures
        lo <= r.0 <= r.1 <= hi,
        trim_spec(chars@.subrange(lo as int, hi as int)) == chars@.subrange(
            r.0 as int,
            r.1 as int,
        ),
        r.0 < r.1 ==> !is_ws(chars@[r.0 as int]) && !is_ws(chars@[r.1 - 1]),
{
    let ghost line = chars@.subrange(lo as int, hi as int);
    let mut a = lo;
    while a < hi && is_ws_exec(chars[a])
        invariant
            lo <= a <= hi <= chars@.len(),
            forall|i: int| lo <= i < a ==> is_ws(#[trigger] chars@[i]),
        decreases hi - a,
    {
        a = a + 1;
    }
    if a == hi {
        proof {
            assert(forall|i: int| 0 <= i < line.len() ==> line[i] == chars@[i + lo]);
            lemma_trim_window(line, line.len() as int, line.len() as int);
            assert(line.subrange(line.len() as int, line.len() as int) =~= chars@.subrange(
                hi as int,
                hi as int,
            ));
        }
        return (hi, hi);
    }
    let mut b = hi;
    while b > a + 1 && is_ws_exec(chars[b - 1])
        invariant
            lo <= a < b <= hi <= chars@.len(),
            forall|i: int| b <= i < hi ==> is_ws(#[trigger] chars@[i]),
            !is_ws(chars@[a as int]),
        decreases b,
    {
        b = b - 1;
    }
    proof {
        assert(!is_ws(chars@[b - 1])) by {
            if b == a + 1 {
            }
        }
        assert(forall|i: int| 0 <= i < line.len() ==> line[i] == chars@[i + lo]);
        lemma_trim_window(line, a - lo, b - lo);
        assert(line.subrange(a - lo, b - lo) =~= chars@.subrange(a as int, b as int));
    }
    (a, b)
}


/// Parses one action text window: the skip marker, the error marker with
/// its quoted message, or a token name with its keep flag.
fn parse_action(content: &str, chars: &Vec<char>, a0: usize, a1: usize, line_num: usize) -> (r:
    Result<Action, String>)
    requires
        chars@ == content@,
        a0 <= a1 <= content@.len(),
    ensures
        match r {
            Result::Ok(act) => action_matches(
                trim_spec(content@.subrange(a0 as int, a1 as int)),
                act,
            ),
            Result::Err(msg) => no_action_for(trim_spec(content@.subrange(a0 as int, a1 as int)))
                && names_line(msg@, line_num as nat),
        },
{
    let (u0, u1) = trim_window(chars, a0, a1);
    let ghost t = content@.subrange(u0 as int, u1 as int);
    proof {
        assert(forall|k: int| 0 <= k < t.len() ==> #[trigger] t[k] == chars@[u0 + k]);
    }
    let len = u1 - u0;
    if len == 6 && chars[u0] == '(' && chars[u0 + 1] == 'S' && chars[u0 + 2] == 'K' && chars[u0
        + 3] == 'I' && chars[u0 + 4] == 'P' && chars[u0 + 5] == ')' {
        proof {
            assert(t =~= skip_lit());
        }
        return Result::Ok(Action::Skip);
    }
    if len >= 5 && chars[u0] == '(' && chars[u0 + 1] == 'E' && chars[u0 + 2] == 'R' && chars[u0
        + 3] == 'R' && chars[u0 + 4] == ')' {
        proof {
            assert(t.subrange(0, 5) =~= err_lit());
        }
        let (v0, v1) = trim_window(chars, u0 + 5, u1);
        proof {
            assert(content@.subrange(u0 + 5, u1 as int) =~= t.subrange(5, t.len() as int));
        }
        if v1 - v0 >= 2 && chars[v0] == '"' && chars[v1 - 1] == '"' {
            let msg = content.substring_char(v0 + 1, v1 - 1).to_owned();
            proof {
                let e = trim_spec(t.subrange(5, t.len() as int));
                assert(e == content@.subrange(v0 as int, v1 as int));
                assert(msg@ =~= e.subrange(1, e.len() - 1));
            }
            return Result::Ok(Action::Error(msg));
        } else {
            proof {
                let e = trim_spec(t.subrange(5, t.len() as int));
                assert(e == content@.subrange(v0 as int, v1 as int));
                assert(e.len() == v1 - v0);
                if e.len() >= 2 {
                    assert(e.first() == chars@[v0 as int]);
                    assert(e.last() == chars@[v1 - 1]);
                }
                assert forall|act: Action| !(#[trigger] action_matches(t, act)) by {
                    match act {
                        Action::Skip => {
                            if t == skip_lit() {
                                assert(t.subrange(0, 5)[1] == t[1]);
                            }
                        },
                        Action::Error(_) => {},
                        Action::Token { .. } => {},
                    }
                }
            }
            return Result::Err(line_err(line_num, "Error action must have quoted message"));
        }
    }
    // Not a marker, so only a token action can fit.  Its two words are
    // pinned by the first whitespace run.
    proof {
        assert(t != skip_lit()) by {
            if t == skip_lit() {
                assert(t.len() == 6);
                assert(t[0] == '(' && t[1] == 'S' && t[2] == 'K' && t[3] == 'I' && t[4] == 'P'
                    && t[5] == ')');
            }
        }
        assert(!(t.len() >= 5 && t.subrange(0, 5) == err_lit())) by {
            if t.len() >= 5 && t.subrange(0, 5) == err_lit() {
                assert(t.subrange(0, 5)[0] == t[0] && t.subrange(0, 5)[1] == t[1] && t.subrange(
                    0,
                    5,
                )[2] == t[2] && t.subrange(0, 5)[3] == t[3] && t.subrange(0, 5)[4] == t[4]);
            }
        }
    }
    if len == 0 {
        proof {
            assert forall|act: Action| !(#[trigger] action_matches(t, act)) by {
                assert(first_ws_at(t, 0) == 0);
                match act {
                    Action::Skip => {},
                    Action::Error(_) => {},
                    Action::Token { .. } => {},
                }
            }
        }
        return Result::Err(line_err(line_num, "Invalid action format"));
    }
    let mut w1e = u0;
    while w1e < u1 && !is_ws_exec(chars[w1e])
        invariant
            u0 <= w1e <= u1 <= chars@.len(),
            forall|k: int| u0 <= k < w1e ==> !is_ws(#[trigger] chars@[k]),
        decreases u1 - w1e,
    {
        w1e = w1e + 1;
    }
    if w1e == u1 {
        proof {
            assert forall|k: int| 0 <= k < t.len() implies !is_ws(#[trigger] t[k]) by {
                assert(t[k] == chars@[u0 + k]);
            }
            lemma_first_ws_is(t, 0, t.len() as int);
            assert(first_non_ws_at(t, t.len() as int) == t.len());
            assert forall|act: Action| !(#[trigger] action_matches(t, act)) by {
                match act {
                    Action::Skip => {},
                    Action::Error(_) => {},
                    Action::Token { .. } => {},
                }
            }
        }
        return Result::Err(line_err(line_num, "Invalid action format"));
    }
    let mut w2s = w1e;
    while w2s < u1 && is_ws_exec(chars[w2s])
        invariant
            w1e <= w2s <= u1 <= chars@.len(),
            forall|k: int| w1e <= k < w2s ==> is_ws(#[trigger] chars@[k]),
        decreases u1 - w2s,
    {
        w2s = w2s + 1;
    }
    if w2s == u1 {
        // Cannot happen: the window is trimmed, so its last character is
        // not whitespace, yet the run from the first space reached it.
        proof {
            assert(is_ws(chars@[u1 - 1]));
            assert(false);
        }
        return Result::Err(line_err(line_num, "Invalid action format"));
    }
    proof {
        assert forall|k: int| 0 <= k < w1e - u0 implies !is_ws(#[trigger] t[k]) by {
            assert(t[k] == chars@[u0 + k]);
        }
        assert forall|k: int| w1e - u0 <= k < w2s - u0 implies is_ws(#[trigger] t[k]) by {
            assert(t[k] == chars@[u0 + k]);
        }
        assert(t[w1e - u0] == chars@[w1e as int]);
        assert(t[w2s - u0] == chars@[w2s as int]);
        lemma_first_ws_is(t, 0, w1e - u0);
        lemma_first_non_ws_is(t, w1e - u0, w2s - u0);
    }
    let mut w2e = w2s;
    while w2e < u1 && !is_ws_exec(chars[w2e])
        invariant
            w2s <= w2e <= u1 <= chars@.len(),
            forall|k: int| w2s <= k < w2e ==> !is_ws(#[trigger] chars@[k]),
        decreases u1 - w2e,
    {
        w2e = w2e + 1;
    }
    if w2e != u1 {
        proof {
            assert(is_ws(chars@[w2e as int]));
            assert(is_ws(t[w2e - u0]));
            assert forall|act: Action| !(#[trigger] action_matches(t, act)) by {
                match act {
                    Action::Skip => {},
                    Action::Error(_) => {},
                    Action::Token { .. } => {},
                }
            }
        }
        return Result::Err(line_err(line_num, "Invalid action format"));
    }
    proof {
        assert forall|k: int| w2s - u0 <= k < t.len() implies !is_ws(#[trigger] t[k]) by {
            assert(t[k] == chars@[u0 + k]);
        }
    }
    let wlen = u1 - w2s;
    let ghost word = t.subrange(w2s - u0, t.len() as int);
    proof {
        assert(word.len() == u1 - w2s);
        assert(forall|k: int| 0 <= k < word.len() ==> #[trigger] word[k] == chars@[w2s + k]);
    }
    let keep = if wlen == 4 && chars[w2s] == 't' && chars[w2s + 1] == 'r' && chars[w2s + 2] == 'u'
        && chars[w2s + 3] == 'e' {
        proof {
            assert(word =~= true_lit());
        }
        true
    } else if wlen == 5 && chars[w2s] == 'f' && chars[w2s + 1] == 'a' && chars[w2s + 2] == 'l'
        && chars[w2s + 3] == 's' && chars[w2s + 4] == 'e' {
        proof {
            assert(word =~= false_lit());
        }
        false
    } else {
        proof {
            assert(word != true_lit()) by {
                if word == true_lit() {
                    assert(word[0] == 't' && word[1] == 'r' && word[2] == 'u' && word[3] == 'e');
                }
            }
            assert(word != false_lit()) by {
                if word == false_lit() {
                    assert(word[0] == 'f' && word[1] == 'a' && word[2] == 'l' && word[3] == 's'
                        && word[4] == 'e');
                }
            }
            assert forall|act: Action| !(#[trigger] action_matches(t, act)) by {
                match act {
                    Action::Skip => {},
                    Action::Error(_) => {},
                    Action::Token { .. } => {},
                }
            }
        }
        return Result::Err(line_err(line_num, "Keep value must be 'true' or 'false'"));
    };
    let name = content.substring_char(u0, w1e).to_owned();
    proof {
        assert(name@ =~= t.subrange(0, w1e - u0));
        assert(action_matches(t, Action::Token { name, keep_lexeme: keep }));
    }
    Result::Ok(Action::Token { name, keep_lexeme: keep })
}

/// Parses one rule line window, already trimmed: the text before the
/// first space is the regex, the rest the action.
fn parse_rule(content: &str, chars: &Vec<char>, ts: usize, te: usize, line_num: usize) -> (r:
    Result<Rule, String>)
    requires
        chars@ == content@,
        ts <= te <= content@.len(),
    ensures
        match r {
            Result::Ok(rule) => rule_matches(content@.subrange(ts as int, te as int), rule),
            Result::Err(msg) => no_rule_for(content@.subrange(ts as int, te as int))
                && names_line(msg@, line_num as nat),
        },
{
    let ghost t = content@.subrange(ts as int, te as int);
    let mut sp = ts;
    while sp < te && chars[sp] != ' '
        invariant
            ts <= sp <= te <= chars@.len(),
            forall|k: int| ts <= k < sp ==> chars@[k] != ' ',
        decreases te - sp,
    {
        sp = sp + 1;
    }
    proof {
        assert(forall|k: int| 0 <= k < t.len() ==> t[k] == chars@[k + ts]);
        lemma_first_space_is(t, sp - ts);
    }
    if sp == te {
        proof {
            assert forall|rule: Rule| !(#[trigger] rule_matches(t, rule)) by {}
        }
        return Result::Err(line_err(line_num, "Invalid rule format"));
    }
    proof {
        assert(content@.subrange(sp + 1, te as int) =~= t.subrange(sp - ts + 1, t.len() as int));
    }
    let regex = content.substring_char(ts, sp).to_owned();
    let action = match parse_action(content, chars, sp + 1, te, line_num) {
        Result::Ok(a) => a,
        Result::Err(e) => {
            proof {
                assert forall|rule: Rule| !(#[trigger] rule_matches(t, rule)) by {
                    if rule_matches(t, rule) {
                        assert(action_matches(
                            trim_spec(t.subrange(sp - ts + 1, t.len() as int)),
                            rule.action,
                        ));
                        assert(!action_matches(
                            trim_spec(content@.subrange(sp + 1, te as int)),
                            rule.action,
                        ));
                    }
                }
            }
            return Result::Err(e);
        },
    };
    proof {
        assert(regex@ =~= t.subrange(0, sp - ts));
    }
    Result::Ok(Rule { regex, action })
}

/// Parses a rule file: one rule per non-blank line, in order, with the
/// 1-based line number named in every error.
pub fn parse_spec(content: &str) -> (r: Result<Spec, String>)
    requires
        content@.len() < usize::MAX,
    ensures
        match r {
            Result::Ok(sp) => rules_from(content@, 0, sp.rules@),
            Result::Err(msg) => (forall|all: Seq<Rule>| !(#[trigger] rules_from(content@, 0, all)))
                && (match first_bad_line(content@, 0, 1) {
                Option::Some(ln) => names_line(msg@, ln),
                Option::None => false,
            }),
        },
{
    let n = content.unicode_len();
    let mut chars: Vec<char> = Vec::new();
    let mut ki: usize = 0;
    while ki < n
        invariant
            ki <= n,
            n == content@.len(),
            chars@ == content@.subrange(0, ki as int),
        decreases n - ki,
    {
        chars.push(content.get_char(ki));
        proof {
            assert(chars@ =~= content@.subrange(0, ki as int + 1));
        }
        ki = ki + 1;
    }
    proof {
        assert(chars@ =~= content@);
    }
    let mut rules: Vec<Rule> = Vec::new();
    let mut p: usize = 0;
    let mut line_num: usize = 1;
    proof {
        assert forall|all: Seq<Rule>| #[trigger] rules_from(content@, 0, all) implies all.len()
            >= 0 && rules_from(content@, 0, all.skip(0)) by {
            assert(all.skip(0) =~= all);
        }
    }
    while p < n
        invariant
            n == content@.len(),
            n < usize::MAX,
            chars@ == content@,
            p <= n + 1,
            1 <= line_num <= p + 1,
            first_bad_line(content@, 0, 1) == first_bad_line(content@, p as int, line_num as nat),
            forall|fut: Seq<Rule>|
                rules_from(content@, p as int, fut) ==> #[trigger] rules_from(
                    content@,
                    0,
                    rules@ + fut,
                ),
            forall|all: Seq<Rule>| #[trigger]
                rules_from(content@, 0, all) ==> all.len() >= rules@.len() && rules_from(
                    content@,
                    p as int,
                    all.skip(rules@.len() as int),
                ),
        decreases n + 1 - p,
    {
        let mut e = p;
        while e < n && chars[e] != '\n'
            invariant
                p <= e <= n,
                n == content@.len(),
                chars@ == content@,
                forall|k: int| p <= k < e ==> content@[k] != '\n',
            decreases n - e,
        {
            e = e + 1;
        }
        proof {
            lemma_next_nl_is(content@, p as int, e as int);
        }
        let (ts, te) = trim_window(&chars, p, e);
        let ghost t = trim_spec(content@.subrange(p as int, e as int));
        let ghost old_rules = rules@;
        if ts == te {
            proof {
                assert(t.len() == 0);
                assert(first_bad_line(content@, p as int, line_num as nat) == first_bad_line(
                    content@,
                    e + 1,
                    (line_num + 1) as nat,
                ));
                assert forall|fut: Seq<Rule>| rules_from(content@, e + 1, fut) implies #[trigger]
                rules_from(content@, 0, rules@ + fut) by {
                    assert(rules_from(content@, p as int, fut));
                }
                assert forall|all: Seq<Rule>| #[trigger]
                    rules_from(content@, 0, all) implies all.len() >= rules@.len() && rules_from(
                    content@,
                    e + 1,
                    all.skip(rules@.len() as int),
                ) by {
                    assert(rules_from(content@, p as int, all.skip(rules@.len() as int)));
                }
            }
        } else {
            let rule = match parse_rule(content, &chars, ts, te, line_num) {
                Result::Ok(rule) => rule,
                Result::Err(err) => {
                    proof {
                        assert(t == content@.subrange(ts as int, te as int));
                        assert forall|all: Seq<Rule>| !(#[trigger] rules_from(
                            content@,
                            0,
                            all,
                        )) by {
                            if rules_from(content@, 0, all) {
                                let s = all.skip(rules@.len() as int);
                                assert(rules_from(content@, p as int, s));
                                assert(s.len() > 0 && rule_matches(t, s.first()));
                                assert(!rule_matches(t, s.first()));
                            }
                        }
                        assert(!(exists|rl: Rule| #[trigger] rule_matches(t, rl)));
                        assert(first_bad_line(content@, p as int, line_num as nat)
                            == Option::Some(line_num as nat));
                    }
                    return Result::Err(err);
                },
            };
            let ghost gline_rule = rule;
            let ghost grule = rule;
            rules.push(rule);
            proof {
                assert(t == content@.subrange(ts as int, te as int));
                assert(rule_matches(t, grule));
                assert forall|fut: Seq<Rule>| rules_from(content@, e + 1, fut) implies #[trigger]
                rules_from(content@, 0, rules@ + fut) by {
                    let withr = seq![grule] + fut;
                    assert(withr.first() == grule);
                    assert(withr.drop_first() =~= fut);
                    assert(withr.len() > 0);
                    assert(rules_from(content@, p as int, withr));
                    assert(rules_from(content@, 0, old_rules + withr));
                    assert(old_rules + withr =~= rules@ + fut);
                }
                assert(rule_matches(t, gline_rule));
                assert(first_bad_line(content@, p as int, line_num as nat) == first_bad_line(
                    content@,
                    e + 1,
                    (line_num + 1) as nat,
                ));
                assert forall|all: Seq<Rule>| #[trigger]
                    rules_from(content@, 0, all) implies all.len() >= rules@.len() && rules_from(
                    content@,
                    e + 1,
                    all.skip(rules@.len() as int),
                ) by {
                    let s = all.skip(old_rules.len() as int);
                    assert(all.len() >= old_rules.len());
                    assert(rules_from(content@, p as int, s));
                    assert(s.len() > 0 && rules_from(content@, e + 1, s.drop_first()));
                    assert(s.len() == all.len() - old_rules.len());
                    assert(rules@.len() == old_rules.len() + 1);
                    assert(all.len() >= rules@.len());
                    assert(s.drop_first() =~= all.skip(rules@.len() as int));
                }
            }
        }
        p = e + 1;
        if line_num <= n {
            line_num = line_num + 1;
        }
    }
    proof {
        assert(rules_from(content@, p as int, Seq::<Rule>::empty()));
        assert(rules_from(content@, 0, rules@ + Seq::<Rule>::empty()));
        assert(rules@ + Seq::<Rule>::empty() =~= rules@);
    }
    Result::Ok(Spec { rules })
}

} // verus!
