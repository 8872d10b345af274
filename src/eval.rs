use vstd::prelude::*;

use crate::errors::{FindingScopeError, ParseError};
use crate::linked_tokens::{chars_of, char_token, LinkedTokens, Token, TokenNode, TokenView};
use crate::pattern::{captures_in, compile_pattern, pattern_captures, regex_compiles, same_group};

verus! {

/// Why a scope could not be rewritten.
#[derive(Debug)]
pub enum EvalError {
    StartIndexOutOfBounds,
    MissingInput,
    MissingPattern,
    MissingOutput,
    ScopeEndedWhileParsingInput,
    ScopeNotSimple,
    /// A call of a function that no definition has registered.
    UnknownFunction(String),
    /// No arm's pattern matched the input.
    NoArmMatched,
    /// A register reference past the frames or past the slots of its frame.
    UnboundRegister,
    /// A pattern that is not a valid regular expression.
    InvalidPattern,
    /// The program raised an error with `error(...)`.
    Raised(String),
    /// A `get_input(...)` was met and no line of input is left; carries the prompt.
    InputNeeded(String),
    /// A scope without its closing brace, or with the wrong number of parts.
    MalformedScope,
    /// Outputs that hold scopes were evaluated inside each other more deeply than allowed.
    TooDeep,
    Lex(ParseError),
    Scope(FindingScopeError),
}

/// One `input : pattern : output` clause.
pub struct Arm {
    pub input: Vec<Token>,
    pub pattern: Vec<Token>,
    pub output: Vec<Token>,
}

/// A defined function: its name, whether it was declared with `*def`, and its arms in
/// order. Every definition, `def` or `*def`, stays in the table for the rest of the run.
pub struct Function {
    pub name: String,
    pub global: bool,
    pub arms: Vec<Arm>,
}

/// The value of register `index` of the frame `depth` steps up from the innermost one.
pub open spec fn frame_lookup(frames: Seq<Seq<Seq<char>>>, depth: nat, index: nat) -> Option<Seq<char>> {
    if depth < frames.len() && index < frames[frames.len() - 1 - depth].len() {
        Some(frames[frames.len() - 1 - depth][index as int])
    } else {
        None
    }
}

/// The text of a template: characters as they are, whitespace as one space, register
/// references replaced by their values; the first unbound reference is an error.
pub open spec fn template_text(ts: Seq<Token>, frames: Seq<Seq<Seq<char>>>) -> Result<Seq<char>, EvalError>
    decreases ts.len(),
{
    if ts.len() == 0 {
        Ok(Seq::empty())
    } else {
        match template_text(ts.drop_last(), frames) {
            Err(e) => Err(e),
            Ok(s) => match ts.last()@ {
                TokenView::Char(c) => Ok(s.push(c)),
                TokenView::GenericWhitespace => Ok(s.push(' ')),
                TokenView::RegisterCall(d, i) => match frame_lookup(frames, d, i) {
                    Some(v) => Ok(s + v),
                    None => Err(EvalError::UnboundRegister),
                },
                _ => Err(EvalError::MalformedScope),
            },
        }
    }
}

/// `s` without its leading spaces.
pub open spec fn strip_front(s: Seq<char>) -> Seq<char>
    decreases s.len(),
{
    if s.len() > 0 && s[0] == ' ' {
        strip_front(s.drop_first())
    } else {
        s
    }
}

/// `s` without its trailing spaces.
pub open spec fn strip_back(s: Seq<char>) -> Seq<char>
    decreases s.len(),
{
    if s.len() > 0 && s.last() == ' ' {
        strip_back(s.drop_last())
    } else {
        s
    }
}

/// `s` without its leading and trailing spaces.
pub open spec fn trim(s: Seq<char>) -> Seq<char> {
    strip_back(strip_front(s))
}

/// Trying one arm on `arg`: the capture groups where its pattern matches, none where
/// it does not, or the error met on the way.
pub open spec fn arm_outcome(arm: Arm, arg: Seq<char>, frames: Seq<Seq<Seq<char>>>) -> Result<Option<Seq<Seq<char>>>, EvalError> {
    pattern_outcome(arm.pattern@, arg, frames)
}

/// Matching the pattern template `pattern`, resolved in `frames` and without surrounding
/// spaces, against `arg`.
pub open spec fn pattern_outcome(pattern: Seq<Token>, arg: Seq<char>, frames: Seq<Seq<Seq<char>>>) -> Result<Option<Seq<Seq<char>>>, EvalError> {
    match template_text(pattern, frames) {
        Err(e) => Err(e),
        Ok(p) => if !regex_compiles(trim(p)) {
            Err(EvalError::InvalidPattern)
        } else {
            match captures_in(trim(p), arg) {
                None => Ok(None),
                Some(gs) => Ok(Some(group_texts(gs))),
            }
        },
    }
}

/// The text of each capture group, a group that took no part in the match being empty.
pub open spec fn group_texts(gs: Seq<Option<Seq<char>>>) -> Seq<Seq<char>>
    decreases gs.len(),
{
    if gs.len() == 0 {
        Seq::empty()
    } else {
        group_texts(gs.drop_last()).push(
            match gs.last() {
                Some(g) => g,
                None => Seq::empty(),
            },
        )
    }
}

/// Trying the arms from index `a` on, in order: the first that matches, with its groups.
pub open spec fn first_match(arms: Seq<Arm>, a: int, arg: Seq<char>, frames: Seq<Seq<Seq<char>>>) -> Result<Option<(int, Seq<Seq<char>>)>, EvalError>
    decreases arms.len() - a,
{
    if a < 0 || a >= arms.len() {
        Ok(None)
    } else {
        match arm_outcome(arms[a], arg, frames) {
            Err(e) => Err(e),
            Ok(Some(gs)) => Ok(Some((a, gs))),
            Ok(None) => first_match(arms, a + 1, arg, frames),
        }
    }
}

/// The output template resolved with the groups `gs` as the innermost frame, without
/// surrounding spaces.
pub open spec fn output_text(output: Seq<Token>, frames: Seq<Seq<Seq<char>>>, gs: Seq<Seq<char>>) -> Result<Seq<char>, EvalError> {
    match template_text(output, frames.push(gs)) {
        Ok(o) => Ok(trim(o)),
        Err(e) => Err(e),
    }
}

/// A template made of characters, whitespace and register references only.
pub open spec fn plain_template(ts: Seq<Token>) -> bool {
    forall|k: int| 0 <= k < ts.len() ==> (#[trigger] ts[k])@ is Char || ts[k]@ is GenericWhitespace || ts[k]@ is RegisterCall
}

/// Matching a bare scope `{ input : pattern : output }` whose input and pattern are
/// evaluated: the capture groups, or why it does not rewrite.
pub open spec fn bare_match(input: Seq<Token>, pattern: Seq<Token>, frames: Seq<Seq<Seq<char>>>) -> Result<Seq<Seq<char>>, EvalError> {
    match template_text(input, frames) {
        Err(e) => Err(e),
        Ok(i) => match pattern_outcome(pattern, trim(i), frames) {
            Err(e) => Err(e),
            Ok(None) => Err(EvalError::NoArmMatched),
            Ok(Some(gs)) => Ok(gs),
        },
    }
}

/// Matching a call of a function with arms `arms` on the evaluated argument `arg`: the
/// first arm that matches with its capture groups, or why the call does not rewrite.
pub open spec fn call_match(arms: Seq<Arm>, arg: Seq<Token>, frames: Seq<Seq<Seq<char>>>) -> Result<(int, Seq<Seq<char>>), EvalError> {
    match template_text(arg, frames) {
        Err(e) => Err(e),
        Ok(a) => match first_match(arms, 0, trim(a), frames) {
            Err(e) => Err(e),
            Ok(None) => Err(EvalError::NoArmMatched),
            Ok(Some((i, gs))) => Ok((i, gs)),
        },
    }
}

/// A call of function `i`, the first of the table `fs` named `name`, whose arms were
/// matched, and one matched, against the argument `arg`, in which no scope is left.
pub open spec fn call_on_evaluated(fs: Seq<Function>, name: Seq<char>, i: int, arg: Seq<Token>, frames: Seq<Seq<Seq<char>>>) -> bool {
    &&& plain_template(arg)
    &&& first_named(fs, name, i)
    &&& call_match(fs[i].arms@, arg, frames) is Ok
}

/// Whether a function of the table has the name `name`.
pub open spec fn defines(fs: Seq<Function>, name: Seq<char>) -> bool {
    exists|i: int| 0 <= i < fs.len() && (#[trigger] fs[i]).name@ == name
}

/// Arms are tried strictly in order: the arm selected matched, and every arm before it
/// was tried and did not match.
pub proof fn lemma_first_match_wins(arms: Seq<Arm>, arg: Seq<char>, frames: Seq<Seq<Seq<char>>>, i: int, gs: Seq<Seq<char>>)
    requires
        first_match(arms, 0, arg, frames) == Ok::<Option<(int, Seq<Seq<char>>)>, EvalError>(Some((i, gs))),
    ensures
        0 <= i < arms.len(),
        arm_outcome(arms[i], arg, frames) == Ok::<Option<Seq<Seq<char>>>, EvalError>(Some(gs)),
        forall|j: int| 0 <= j < i ==> #[trigger] arm_outcome(arms[j], arg, frames) == Ok::<Option<Seq<Seq<char>>>, EvalError>(None),
{
    lemma_first_match_from(arms, 0, arg, frames, i, gs);
}

proof fn lemma_first_match_from(arms: Seq<Arm>, a: int, arg: Seq<char>, frames: Seq<Seq<Seq<char>>>, i: int, gs: Seq<Seq<char>>)
    requires
        0 <= a,
        first_match(arms, a, arg, frames) == Ok::<Option<(int, Seq<Seq<char>>)>, EvalError>(Some((i, gs))),
    ensures
        a <= i < arms.len(),
        arm_outcome(arms[i], arg, frames) == Ok::<Option<Seq<Seq<char>>>, EvalError>(Some(gs)),
        forall|j: int| a <= j < i ==> #[trigger] arm_outcome(arms[j], arg, frames) == Ok::<Option<Seq<Seq<char>>>, EvalError>(None),
    decreases arms.len() - a,
{
    match arm_outcome(arms[a], arg, frames) {
        Ok(None) => {
            lemma_first_match_from(arms, a + 1, arg, frames, i, gs);
        },
        _ => {},
    }
}

/// The value of a register reference.
pub fn resolve_register(frames: &Vec<Vec<String>>, depth: usize, index: usize) -> (r: Result<String, EvalError>)
    ensures
        match frame_lookup(frames.deep_view(), depth as nat, index as nat) {
            Some(v) => r matches Ok(s) && s@ == v,
            None => r matches Err(EvalError::UnboundRegister),
        },
{
    if depth < frames.len() {
        let f = &frames[frames.len() - 1 - depth];
        if index < f.len() {
            return Ok(f[index].clone());
        }
    }
    Err(EvalError::UnboundRegister)
}

/// The text of a template, with register references resolved in `frames`.
pub fn resolve_template(ts: &Vec<Token>, frames: &Vec<Vec<String>>) -> (r: Result<Vec<char>, EvalError>)
    ensures
        match template_text(ts@, frames.deep_view()) {
            Ok(s) => r matches Ok(v) && v@ == s,
            Err(e) => r matches Err(e2) && e2 == e,
        },
{
    let mut out: Vec<char> = Vec::new();
    let mut k: usize = 0;
    assert(ts@.take(0) =~= Seq::<Token>::empty());
    while k < ts.len()
        invariant
            k <= ts@.len(),
            template_text(ts@.take(k as int), frames.deep_view()) == Ok::<Seq<char>, EvalError>(out@),
        decreases ts@.len() - k,
    {
        let ghost before = out@;
        assert(ts@.take(k + 1).drop_last() =~= ts@.take(k as int));
        assert(ts@.take(k + 1).last() == ts@[k as int]);
        match &ts[k] {
            Token::Char(c) => {
                out.push(*c);
            },
            Token::GenericWhitespace => {
                out.push(' ');
            },
            Token::RegisterCall(d, i) => {
                match resolve_register(frames, *d, *i) {
                    Ok(v) => {
                        let vs = chars_of(v.as_str());
                        let mut m: usize = 0;
                        while m < vs.len()
                            invariant
                                m <= vs@.len(),
                                out@ == before + vs@.take(m as int),
                            decreases vs@.len() - m,
                        {
                            out.push(vs[m]);
                            m = m + 1;
                            assert(out@ =~= before + vs@.take(m as int));
                        }
                        assert(vs@.take(m as int) =~= vs@);
                    },
                    Err(e) => {
                        proof {
                            lemma_template_error_persists(ts@, frames.deep_view(), k + 1);
                        }
                        return Err(e);
                    },
                }
            },
            _ => {
                proof {
                    lemma_template_error_persists(ts@, frames.deep_view(), k + 1);
                }
                return Err(EvalError::MalformedScope);
            },
        }
        k = k + 1;
    }
    assert(ts@.take(k as int) =~= ts@);
    Ok(out)
}

/// Once a prefix of a template fails, the whole template fails the same way.
proof fn lemma_template_error_persists(ts: Seq<Token>, frames: Seq<Seq<Seq<char>>>, k: int)
    requires
        0 <= k <= ts.len(),
        template_text(ts.take(k), frames) is Err,
    ensures
        template_text(ts, frames) == template_text(ts.take(k), frames),
    decreases ts.len() - k,
{
    if k == ts.len() {
        assert(ts.take(k) =~= ts);
    } else {
        assert(ts.take(k + 1).drop_last() =~= ts.take(k));
        lemma_template_error_persists(ts, frames, k + 1);
    }
}

/// `v` without its leading and trailing spaces.
pub fn trim_spaces(v: &Vec<char>) -> (r: Vec<char>)
    ensures
        r@ == trim(v@),
{
    let n = v.len();
    let mut lo: usize = 0;
    assert(v@.subrange(0, n as int) =~= v@);
    while lo < n && v[lo] == ' '
        invariant
            lo <= n,
            n == v@.len(),
            strip_front(v@) == strip_front(v@.subrange(lo as int, n as int)),
        decreases n - lo,
    {
        assert(v@.subrange(lo as int, n as int).drop_first() =~= v@.subrange(lo + 1, n as int));
        lo = lo + 1;
    }
    let ghost front = v@.subrange(lo as int, n as int);
    assert(strip_front(v@) == front);
    let mut hi: usize = n;
    assert(v@.subrange(lo as int, hi as int) =~= front);
    while hi > lo && v[hi - 1] == ' '
        invariant
            lo <= hi <= n,
            n == v@.len(),
            strip_back(front) == strip_back(v@.subrange(lo as int, hi as int)),
        decreases hi,
    {
        assert(v@.subrange(lo as int, hi as int).drop_last() =~= v@.subrange(lo as int, hi - 1));
        hi = hi - 1;
    }
    let mut r: Vec<char> = Vec::new();
    let mut k: usize = lo;
    while k < hi
        invariant
            lo <= k <= hi,
            hi <= n,
            n == v@.len(),
            r@ == v@.subrange(lo as int, k as int),
        decreases hi - k,
    {
        r.push(v[k]);
        k = k + 1;
        assert(r@ =~= v@.subrange(lo as int, k as int));
    }
    r
}

/// Trying one arm on `arg`.
fn try_arm(arm: &Arm, arg: &Vec<char>, frames: &Vec<Vec<String>>) -> (r: Result<Option<Vec<String>>, EvalError>)
    ensures
        match arm_outcome(*arm, arg@, frames.deep_view()) {
            Ok(None) => r matches Ok(None),
            Ok(Some(gs)) => r matches Ok(Some(v)) && v.deep_view() == gs,
            Err(e) => r matches Err(e2) && e2 == e,
        },
{
    try_pattern(&arm.pattern, arg, frames)
}

/// Matching a pattern template on `arg`.
fn try_pattern(pattern: &Vec<Token>, arg: &Vec<char>, frames: &Vec<Vec<String>>) -> (r: Result<Option<Vec<String>>, EvalError>)
    ensures
        match pattern_outcome(pattern@, arg@, frames.deep_view()) {
            Ok(None) => r matches Ok(None),
            Ok(Some(gs)) => r matches Ok(Some(v)) && v.deep_view() == gs,
            Err(e) => r matches Err(e2) && e2 == e,
        },
{
    let p = match resolve_template(pattern, frames) {
        Ok(p) => p,
        Err(e) => {
            return Err(e);
        },
    };
    let p = trim_spaces(&p);
    let ps = crate::linked_tokens::string_of(&p);
    let a = crate::linked_tokens::string_of(arg);
    match compile_pattern(ps.as_str()) {
        None => Err(EvalError::InvalidPattern),
        Some(cp) => match pattern_captures(&cp, a.as_str()) {
            None => Ok(None),
            Some(v) => Ok(Some(group_strings(&v, Ghost(captures_in(cp.source(), a@)->Some_0)))),
        },
    }
}

/// The text of each group: the group's string, or an empty one where it took no part.
fn group_strings(v: &Vec<Option<String>>, Ghost(gs): Ghost<Seq<Option<Seq<char>>>>) -> (r: Vec<String>)
    requires
        v@.len() == gs.len(),
        forall|k: int| 0 <= k < gs.len() ==> same_group(#[trigger] v@[k], gs[k]),
    ensures
        r.deep_view() == group_texts(gs),
{
    let mut r: Vec<String> = Vec::new();
    let mut k: usize = 0;
    assert(gs.take(0) =~= Seq::<Option<Seq<char>>>::empty());
    while k < v.len()
        invariant
            k <= v@.len(),
            v@.len() == gs.len(),
            forall|m: int| 0 <= m < gs.len() ==> same_group(#[trigger] v@[m], gs[m]),
            r.deep_view() == group_texts(gs.take(k as int)),
        decreases v@.len() - k,
    {
        let ghost before = r.deep_view();
        let g = match &v[k] {
            Some(x) => x.clone(),
            None => String::new(),
        };
        r.push(g);
        proof {
            assert(gs.take(k + 1).drop_last() =~= gs.take(k as int));
            assert(gs.take(k + 1).last() == gs[k as int]);
            assert(r.deep_view() =~= before.push(g@));
        }
        k = k + 1;
    }
    assert(gs.take(k as int) =~= gs);
    r
}

/// Tries the arms in order on `arg` and selects the first whose pattern matches.
pub fn select_arm(arms: &Vec<Arm>, arg: &Vec<char>, frames: &Vec<Vec<String>>) -> (r: Result<Option<(usize, Vec<String>)>, EvalError>)
    ensures
        match first_match(arms@, 0, arg@, frames.deep_view()) {
            Ok(None) => r matches Ok(None),
            Ok(Some((i, gs))) => r matches Ok(Some((j, v))) && j == i && v.deep_view() == gs,
            Err(e) => r matches Err(e2) && e2 == e,
        },
{
    let mut a: usize = 0;
    while a < arms.len()
        invariant
            a <= arms@.len(),
            first_match(arms@, 0, arg@, frames.deep_view()) == first_match(arms@, a as int, arg@, frames.deep_view()),
        decreases arms@.len() - a,
    {
        match try_arm(&arms[a], arg, frames) {
            Err(e) => {
                return Err(e);
            },
            Ok(Some(gs)) => {
                return Ok(Some((a, gs)));
            },
            Ok(None) => {},
        }
        a = a + 1;
    }
    Ok(None)
}

/// The index of the function named `name`, if the table has one.
pub fn find_function(fs: &Vec<Function>, name: &String) -> (r: Option<usize>)
    ensures
        r is None <==> !defines(fs@, name@),
        r matches Some(i) ==> first_named(fs@, name@, i as int),
{
    let mut i: usize = 0;
    while i < fs.len()
        invariant
            i <= fs@.len(),
            forall|j: int| 0 <= j < i ==> (#[trigger] fs@[j]).name@ != name@,
        decreases fs@.len() - i,
    {
        if fs[i].name == *name {
            return Some(i);
        }
        i = i + 1;
    }
    None
}


/// `i` is the first function of the table named `name`.
pub open spec fn first_named(fs: Seq<Function>, name: Seq<char>, i: int) -> bool {
    &&& 0 <= i < fs.len()
    &&& fs[i].name@ == name
    &&& forall|j: int| 0 <= j < i ==> (#[trigger] fs[j]).name@ != name
}

/// Tokens that may stand in the body of a scope without nested scopes or built-in calls.
pub open spec fn is_body_token(t: TokenView) -> bool {
    t is Char || t is GenericWhitespace || t is RegisterCall || t is Colon || t is NewArm
}

/// The position of the first `}` at or after `k`, where only body tokens come before it.
pub open spec fn flat_end(ts: Seq<Token>, k: int) -> Option<int>
    decreases ts.len() - k,
{
    if k < 0 || k >= ts.len() {
        None
    } else if ts[k]@ is ScopeEnd {
        Some(k)
    } else if is_body_token(ts[k]@) {
        flat_end(ts, k + 1)
    } else {
        None
    }
}

/// A body split at `;` into arms and each arm at `:` into parts.
pub open spec fn split_body(ts: Seq<Token>) -> Seq<Seq<Seq<Token>>>
    decreases ts.len(),
{
    if ts.len() == 0 {
        seq![seq![Seq::<Token>::empty()]]
    } else {
        let a = split_body(ts.drop_last());
        let t = ts.last();
        if t@ is NewArm {
            a.push(seq![Seq::<Token>::empty()])
        } else if t@ is Colon {
            a.update(a.len() - 1, a.last().push(Seq::<Token>::empty()))
        } else {
            a.update(a.len() - 1, a.last().update(a.last().len() - 1, a.last().last().push(t)))
        }
    }
}

/// The parts of an arm, as sequences.
pub open spec fn parts_view(ps: Seq<Vec<Token>>) -> Seq<Seq<Token>>
    decreases ps.len(),
{
    if ps.len() == 0 {
        Seq::empty()
    } else {
        parts_view(ps.drop_last()).push(ps.last()@)
    }
}

/// The arms of a body, as sequences.
pub open spec fn arms_view(arms: Seq<Vec<Vec<Token>>>) -> Seq<Seq<Seq<Token>>>
    decreases arms.len(),
{
    if arms.len() == 0 {
        Seq::empty()
    } else {
        arms_view(arms.drop_last()).push(parts_view(arms.last()@))
    }
}

/// The function `f` is named `name`, declared global or not as `global`, and holds the
/// arms `sp`, in order.
pub open spec fn entry_holds(f: Function, name: Seq<char>, global: bool, sp: Seq<Seq<Seq<Token>>>) -> bool {
    &&& f.name@ == name
    &&& f.global == global
    &&& f.arms@.len() == sp.len()
    &&& forall|j: int| 0 <= j < sp.len() ==> {
        &&& (#[trigger] f.arms@[j]).input@ == sp[j][0]
        &&& f.arms@[j].pattern@ == sp[j][1]
        &&& f.arms@[j].output@ == sp[j][2]
    }
}

/// The first `j` arms built hold the parts of the first `j` arms of `sp`.
pub open spec fn arms_match(built: Seq<Arm>, sp: Seq<Seq<Seq<Token>>>, j: int) -> bool {
    forall|q: int| 0 <= q < j ==> (#[trigger] built[q]).input@ == sp[q][0]
        && built[q].pattern@ == sp[q][1] && built[q].output@ == sp[q][2]
}

/// `new_fs` is `fs` with a function of name `name` holding the arms `sp` put in place of
/// the first one of that name, or added at the end where there is none.
pub open spec fn registered(fs: Seq<Function>, new_fs: Seq<Function>, name: Seq<char>, global: bool, sp: Seq<Seq<Seq<Token>>>) -> bool {
    ||| exists|i: int| #[trigger] first_named(fs, name, i) && new_fs.len() == fs.len()
        && entry_holds(new_fs[i], name, global, sp)
        && forall|k: int| 0 <= k < fs.len() && k != i ==> new_fs[k] == fs[k]
    ||| !defines(fs, name) && new_fs.len() == fs.len() + 1 && entry_holds(new_fs.last(), name, global, sp)
        && forall|k: int| 0 <= k < fs.len() ==> new_fs[k] == fs[k]
}

/// What evaluating the scope with head `toks[pos]` gives, where its body up to the `}` at
/// `end` holds only characters, whitespace, register references and separators. A bare
/// scope is rewritten by its one arm; a call by the first arm of the first function of
/// that name that matches (exactly where that arm's output holds no nested scope); a
/// definition registers its arms, in order, and is replaced by nothing.
pub open spec fn flat_scope_result(
    fs: Seq<Function>,
    new_fs: Seq<Function>,
    frames: Seq<Seq<Seq<char>>>,
    toks: Seq<Token>,
    pos: int,
    end: int,
    r: Result<(Vec<char>, usize), EvalError>,
) -> bool {
    let sp = split_body(toks.subrange(pos + 1, end));
    let head = toks[pos]@;
    if head is ScopeStart {
        if sp.len() != 1 || sp[0].len() != 3 {
            r matches Err(EvalError::MalformedScope)
        } else {
            match bare_match(sp[0][0], sp[0][1], frames) {
                Err(e) => (r matches Err(e2) && e2 == e),
                Ok(gs) => match output_text(sp[0][2], frames, gs) {
                    Ok(s) => (r matches Ok((v, nx)) && v@ == s && nx == end + 1),
                    Err(e) => (r matches Err(e2) && e2 == e),
                },
            }
        }
    } else if head is FunctionCall {
        if sp.len() != 1 || sp[0].len() != 1 {
            r matches Err(EvalError::MalformedScope)
        } else {
            forall|i: int| #[trigger] first_named(fs, head->FunctionCall_0, i) ==> match call_match(fs[i].arms@, sp[0][0], frames) {
                Err(e) => (r matches Err(e2) && e2 == e),
                Ok((j, gs)) => plain_template(fs[i].arms@[j].output@) ==> match output_text(fs[i].arms@[j].output@, frames, gs) {
                    Ok(s) => (r matches Ok((v, nx)) && v@ == s && nx == end + 1),
                    Err(e) => (r matches Err(e2) && e2 == e),
                },
            }
        }
    } else {
        let global = head is DefGlobalStart;
        let name = if global { head->DefGlobalStart_0 } else { head->DefStart_0 };
        if forall|a: int| 0 <= a < sp.len() ==> (#[trigger] sp[a]).len() == 3 {
            (r matches Ok((v, nx)) && v@.len() == 0 && nx == end + 1) && registered(fs, new_fs, name, global, sp)
        } else {
            r matches Err(EvalError::MalformedScope)
        }
    }
}

/// The body found by `flat_end` holds only body tokens.
pub(crate) proof fn lemma_flat_end(ts: Seq<Token>, k: int)
    requires
        0 <= k,
        flat_end(ts, k) is Some,
    ensures
        k <= flat_end(ts, k)->Some_0 < ts.len(),
        ts[flat_end(ts, k)->Some_0]@ is ScopeEnd,
        forall|m: int| k <= m < flat_end(ts, k)->Some_0 ==> is_body_token(#[trigger] ts[m]@),
    decreases ts.len() - k,
{
    if !(ts[k]@ is ScopeEnd) {
        lemma_flat_end(ts, k + 1);
    }
}

/// Splitting body tokens gives at least one arm, each of at least one part, each part
/// a plain template.
proof fn lemma_split_plain(ts: Seq<Token>)
    requires
        forall|m: int| 0 <= m < ts.len() ==> is_body_token(#[trigger] ts[m]@),
    ensures
        split_body(ts).len() >= 1,
        forall|a: int| 0 <= a < split_body(ts).len() ==> (#[trigger] split_body(ts)[a]).len() >= 1,
        forall|a: int, p: int| 0 <= a < split_body(ts).len() && 0 <= p < split_body(ts)[a].len()
            ==> plain_template(#[trigger] split_body(ts)[a][p]),
    decreases ts.len(),
{
    if ts.len() > 0 {
        let d = ts.drop_last();
        assert forall|m: int| 0 <= m < d.len() implies is_body_token(#[trigger] d[m]@) by {
            assert(d[m] == ts[m]);
        }
        lemma_split_plain(d);
        let a = split_body(d);
        let t = ts.last();
        assert(is_body_token(ts[ts.len() - 1]@));
        if !(t@ is NewArm) && !(t@ is Colon) {
            let l = a.last();
            let q = l.last().push(t);
            assert(plain_template(l.last()));
            assert(plain_template(q)) by {
                assert forall|k: int| 0 <= k < q.len() implies (#[trigger] q[k])@ is Char || q[k]@ is GenericWhitespace || q[k]@ is RegisterCall by {
                    if k < q.len() - 1 {
                        assert(q[k] == l.last()[k]);
                    }
                }
            }
            let l2 = l.update(l.len() - 1, q);
            assert forall|p: int| 0 <= p < l2.len() implies plain_template(#[trigger] l2[p]) by {
                if p < l.len() - 1 {
                    assert(l2[p] == l[p]);
                }
            }
        } else if t@ is Colon {
            let l2 = a.last().push(Seq::<Token>::empty());
            assert forall|p: int| 0 <= p < l2.len() implies plain_template(#[trigger] l2[p]) by {
                if p < l2.len() - 1 {
                    assert(l2[p] == a.last()[p]);
                }
            }
        } else {
            assert(plain_template(Seq::<Token>::empty()));
        }
    }
}

proof fn lemma_parts_view(ps: Seq<Vec<Token>>)
    ensures
        parts_view(ps).len() == ps.len(),
        forall|m: int| 0 <= m < ps.len() ==> #[trigger] parts_view(ps)[m] == ps[m]@,
    decreases ps.len(),
{
    if ps.len() > 0 {
        lemma_parts_view(ps.drop_last());
    }
}

proof fn lemma_arms_view(arms: Seq<Vec<Vec<Token>>>)
    ensures
        arms_view(arms).len() == arms.len(),
        forall|m: int| 0 <= m < arms.len() ==> #[trigger] arms_view(arms)[m] == parts_view(arms[m]@),
    decreases arms.len(),
{
    if arms.len() > 0 {
        lemma_arms_view(arms.drop_last());
    }
}

/// The token whose value is `v`, for the tokens that carry no string.
pub open spec fn tok_of(v: TokenView) -> Token {
    match v {
        TokenView::Char(c) => Token::Char(c),
        TokenView::ScopeStart => Token::ScopeStart,
        TokenView::ScopeEnd => Token::ScopeEnd,
        TokenView::Colon => Token::Colon,
        TokenView::NewArm => Token::NewArm,
        TokenView::RegisterCall(d, i) => Token::RegisterCall(d as usize, i as usize),
        TokenView::GenericWhitespace => Token::GenericWhitespace,
        _ => Token::RootNodeToken,
    }
}

/// The tokens whose values are `vs`, for tokens that carry no string.
pub open spec fn toks_of(vs: Seq<TokenView>) -> Seq<Token>
    decreases vs.len(),
{
    if vs.len() == 0 {
        Seq::empty()
    } else {
        toks_of(vs.drop_last()).push(tok_of(vs.last()))
    }
}

/// The replacement of a scope with head `head` and a body `body` of body tokens, where
/// it is determined: a bare scope by its one arm; a call by the first matching arm of the
/// first function of that name, where that arm's output holds no nested scope; a
/// definition by nothing.
pub open spec fn flat_value(fs: Seq<Function>, frames: Seq<Seq<Seq<char>>>, head: TokenView, body: Seq<Token>) -> Option<Result<Seq<char>, EvalError>> {
    let sp = split_body(body);
    if head is ScopeStart {
        if sp.len() != 1 || sp[0].len() != 3 {
            Some(Err(EvalError::MalformedScope))
        } else {
            match bare_match(sp[0][0], sp[0][1], frames) {
                Err(e) => Some(Err(e)),
                Ok(gs) => Some(output_text(sp[0][2], frames, gs)),
            }
        }
    } else if head is FunctionCall {
        if sp.len() != 1 || sp[0].len() != 1 {
            Some(Err(EvalError::MalformedScope))
        } else if exists|i: int| #[trigger] first_named(fs, head->FunctionCall_0, i) {
            let i = choose|i: int| #[trigger] first_named(fs, head->FunctionCall_0, i);
            match call_match(fs[i].arms@, sp[0][0], frames) {
                Err(e) => Some(Err(e)),
                Ok((j, gs)) => if plain_template(fs[i].arms@[j].output@) {
                    Some(output_text(fs[i].arms@[j].output@, frames, gs))
                } else {
                    None
                },
            }
        } else {
            None
        }
    } else if head is DefStart || head is DefGlobalStart {
        if forall|a: int| 0 <= a < sp.len() ==> (#[trigger] sp[a]).len() == 3 {
            Some(Ok(Seq::empty()))
        } else {
            Some(Err(EvalError::MalformedScope))
        }
    } else {
        None
    }
}

/// What `flat_scope_result` promises, read through `flat_value`.
pub proof fn lemma_flat_value(
    fs: Seq<Function>,
    new_fs: Seq<Function>,
    frames: Seq<Seq<Seq<char>>>,
    toks: Seq<Token>,
    pos: int,
    end: int,
    r: Result<(Vec<char>, usize), EvalError>,
)
    requires
        0 <= pos < end < toks.len(),
        is_head(toks[pos]@),
        flat_scope_result(fs, new_fs, frames, toks, pos, end, r),
    ensures
        match flat_value(fs, frames, toks[pos]@, toks.subrange(pos + 1, end)) {
            Some(Ok(x)) => r matches Ok((v, nx)) && v@ == x && nx == end + 1,
            Some(Err(e)) => r matches Err(e2) && e2 == e,
            None => true,
        },
{
    let head = toks[pos]@;
    if head is FunctionCall {
        let sp = split_body(toks.subrange(pos + 1, end));
        if sp.len() == 1 && sp[0].len() == 1 && exists|i: int| #[trigger] first_named(fs, head->FunctionCall_0, i) {
            let i = choose|i: int| #[trigger] first_named(fs, head->FunctionCall_0, i);
            assert(first_named(fs, head->FunctionCall_0, i));
        }
    }
}

/// Every token without a string is the token of its value.
pub proof fn lemma_tok_of(t: Token)
    requires
        !(t@ is FunctionCall || t@ is DefStart || t@ is DefGlobalStart || t@ is GetInput || t@ is Error || t@ is Print
            || t@ is RootNodeToken),
    ensures
        tok_of(t@) == t,
{
}

pub(crate) proof fn lemma_toks_of(vs: Seq<TokenView>)
    ensures
        toks_of(vs).len() == vs.len(),
        forall|k: int| 0 <= k < vs.len() ==> #[trigger] toks_of(vs)[k] == tok_of(vs[k]),
    decreases vs.len(),
{
    if vs.len() > 0 {
        lemma_toks_of(vs.drop_last());
    }
}

/// The first `}` at or after `k` with only body tokens before it.
fn find_flat_end(toks: &Vec<Token>, k: usize) -> (r: Option<usize>)
    ensures
        match flat_end(toks@, k as int) {
            None => r is None,
            Some(e) => r == Some(e as usize),
        },
{
    let mut m = k;
    while m < toks.len()
        invariant
            k <= m,
            flat_end(toks@, k as int) == flat_end(toks@, m as int),
        decreases toks@.len() - m,
    {
        match &toks[m] {
            Token::ScopeEnd => {
                return Some(m);
            },
            Token::Char(_) | Token::GenericWhitespace | Token::RegisterCall(_, _) | Token::Colon | Token::NewArm => {},
            _ => {
                return None;
            },
        }
        m = m + 1;
    }
    None
}

/// Splits the body tokens `toks[from..to]` into arms of parts.
fn split_flat(toks: &Vec<Token>, from: usize, to: usize) -> (r: Vec<Vec<Vec<Token>>>)
    requires
        from <= to <= toks@.len(),
        forall|m: int| from <= m < to ==> is_body_token(#[trigger] toks@[m]@),
    ensures
        arms_view(r@) == split_body(toks@.subrange(from as int, to as int)),
{
    let mut arms: Vec<Vec<Vec<Token>>> = Vec::new();
    let mut parts: Vec<Vec<Token>> = Vec::new();
    let mut part: Vec<Token> = Vec::new();
    let mut k = from;
    proof {
        assert(toks@.subrange(from as int, from as int) =~= Seq::<Token>::empty());
        assert(parts_view(parts@) == Seq::<Seq<Token>>::empty());
        assert(arms_view(arms@) == Seq::<Seq<Seq<Token>>>::empty());
        assert(parts@.push(part).drop_last() =~= parts@);
        assert(part@ =~= Seq::<Token>::empty());
        assert(parts_view(parts@.push(part)) =~= seq![Seq::<Token>::empty()]);
        assert(arms_view(arms@).push(parts_view(parts@.push(part))) =~= seq![seq![Seq::<Token>::empty()]]);
    }
    while k < to
        invariant
            from <= k <= to,
            to <= toks@.len(),
            forall|m: int| from <= m < to ==> is_body_token(#[trigger] toks@[m]@),
            split_body(toks@.subrange(from as int, k as int)) == arms_view(arms@).push(parts_view(parts@.push(part))),
        decreases to - k,
    {
        let ghost a = split_body(toks@.subrange(from as int, k as int));
        let ghost sub = toks@.subrange(from as int, k + 1);
        proof {
            assert(sub.drop_last() =~= toks@.subrange(from as int, k as int));
            assert(sub.last() == toks@[k as int]);
            assert(parts@.push(part).drop_last() =~= parts@);
        }
        let ghost av = arms_view(arms@);
        let ghost pv = parts_view(parts@);
        match &toks[k] {
            Token::NewArm => {
                let ghost old_part = part@;
                let ghost old_parts = parts@;
                let ghost old_arms = arms@;
                parts.push(part);
                part = Vec::new();
                let ghost full = parts@;
                arms.push(parts);
                parts = Vec::new();
                proof {
                    assert(arms@.drop_last() =~= old_arms);
                    assert(arms@.last()@ == full);
                    assert(full.drop_last() =~= old_parts);
                    assert(full.last()@ == old_part);
                    assert(parts_view(full) == pv.push(old_part));
                    assert(arms_view(arms@) == av.push(pv.push(old_part)));
                    assert(parts@.push(part).drop_last() =~= parts@);
                    assert(parts_view(parts@) == Seq::<Seq<Token>>::empty());
                    assert(parts_view(parts@.push(part)) =~= seq![Seq::<Token>::empty()]);
                    assert(a == av.push(pv.push(old_part)));
                }
            },
            Token::Colon => {
                let ghost old_part = part@;
                let ghost old_parts = parts@;
                parts.push(part);
                part = Vec::new();
                proof {
                    assert(parts@.drop_last() =~= old_parts);
                    assert(parts@.last()@ == old_part);
                    assert(parts_view(parts@) == pv.push(old_part));
                    assert(parts@.push(part).drop_last() =~= parts@);
                    assert(parts_view(parts@.push(part)) == pv.push(old_part).push(Seq::<Token>::empty()));
                    assert(a.last() == pv.push(old_part));
                    assert(a.update(a.len() - 1, a.last().push(Seq::<Token>::empty())) =~= av.push(pv.push(old_part).push(Seq::<Token>::empty())));
                }
            },
            _ => {
                let ghost old_part = part@;
                let t = toks[k].copy();
                part.push(t);
                proof {
                    assert(t == toks@[k as int]);
                    assert(parts@.push(part).drop_last() =~= parts@);
                    assert(parts_view(parts@.push(part)) == pv.push(old_part.push(t)));
                    assert(a.last() == pv.push(old_part));
                    assert(a.last().last() == old_part);
                    let l = a.last();
                    assert(l.update(l.len() - 1, old_part.push(t)) =~= pv.push(old_part.push(t)));
                    assert(a.update(a.len() - 1, pv.push(old_part.push(t))) =~= av.push(pv.push(old_part.push(t))));
                }
            },
        }
        k = k + 1;
    }
    let ghost old_parts = parts@;
    let ghost old_part = part@;
    let ghost old_arms = arms@;
    parts.push(part);
    let ghost full = parts@;
    arms.push(parts);
    proof {
        assert(toks@.subrange(from as int, k as int) == toks@.subrange(from as int, to as int));
        assert(full.drop_last() =~= old_parts);
        assert(full.last()@ == old_part);
        assert(parts_view(full) == parts_view(old_parts.push(part)));
        assert(arms@.drop_last() =~= old_arms);
        assert(arms@.last()@ == full);
    }
    arms
}

/// The heads that open a scope.
pub open spec fn is_head(t: TokenView) -> bool {
    match t {
        TokenView::ScopeStart | TokenView::FunctionCall(_) | TokenView::DefStart(_) | TokenView::DefGlobalStart(_) => true,
        _ => false,
    }
}

/// The state that evaluation reads and changes: the function table, the register
/// frames, the lines of input handed in, and the messages printed.
pub struct Evaluator {
    pub functions: Vec<Function>,
    pub frames: Vec<Vec<String>>,
    pub inputs: Vec<String>,
    pub next_input: usize,
    pub printed: Vec<String>,
}

/// Appends the characters of `s` to a template part.
fn push_text(part: &mut Vec<Token>, s: &Vec<char>)
    ensures
        plain_template(old(part)@) ==> plain_template(final(part)@),
{
    let mut m: usize = 0;
    while m < s.len()
        invariant
            m <= s@.len(),
            plain_template(old(part)@) ==> plain_template(part@),
        decreases s@.len() - m,
    {
        let ghost before = part@;
        part.push(char_tok(s[m]));
        proof {
            if plain_template(old(part)@) {
                assert forall|k: int| 0 <= k < part@.len() implies (#[trigger] part@[k])@ is Char || part@[k]@ is GenericWhitespace
                    || part@[k]@ is RegisterCall by {
                    if k < before.len() {
                        assert(part@[k] == before[k]);
                    }
                }
            }
        }
        m = m + 1;
    }
}

/// An arm from its three parts.
fn arm_of(parts: Vec<Vec<Token>>) -> (r: Option<Arm>)
    ensures
        r is Some <==> parts@.len() == 3,
{
    if parts.len() != 3 {
        return None;
    }
    let mut parts = parts;
    let output = parts.pop().unwrap();
    let pattern = parts.pop().unwrap();
    let input = parts.pop().unwrap();
    Some(Arm { input, pattern, output })
}

impl Evaluator {
    /// An evaluator with the given function table, one empty register frame and no input.
    pub fn new(functions: Vec<Function>) -> (r: Evaluator)
        ensures
            r.functions@ == functions@,
            r.frames@.len() == 1,
            r.frames@[0]@.len() == 0,
            r.inputs@.len() == 0,
            r.next_input == 0,
            r.printed@.len() == 0,
    {
        let mut frames: Vec<Vec<String>> = Vec::new();
        frames.push(Vec::new());
        Evaluator { functions, frames, inputs: Vec::new(), next_input: 0, printed: Vec::new() }
    }

    /// Runs a built-in call: `print(m)` records `m` and gives no text; `error(m)` fails
    /// with `m`; `get_input(p)` gives the next line handed in, or, where none is left,
    /// fails asking for one with the prompt `p`.
    pub fn run_builtin(&mut self, t: &Token) -> (r: Result<Vec<char>, EvalError>)
        requires
            t@ is Print || t@ is Error || t@ is GetInput,
        ensures
            final(self).frames == old(self).frames,
            final(self).functions == old(self).functions,
            final(self).inputs == old(self).inputs,
            t@ is Print ==> (r matches Ok(v) && v@.len() == 0)
                && final(self).printed.deep_view() == old(self).printed.deep_view().push(t@->Print_0)
                && final(self).next_input == old(self).next_input,
            t@ is Error ==> (r matches Err(EvalError::Raised(m)) && m@ == t@->Error_0)
                && final(self).printed == old(self).printed && final(self).next_input == old(self).next_input,
            t@ is GetInput && old(self).next_input < old(self).inputs@.len() ==> (r matches Ok(v)
                && v@ == old(self).inputs@[old(self).next_input as int]@) && final(self).printed == old(self).printed
                && final(self).next_input == old(self).next_input + 1,
            t@ is GetInput && old(self).next_input >= old(self).inputs@.len() ==> (r matches Err(EvalError::InputNeeded(p))
                && p@ == t@->GetInput_0) && final(self).printed == old(self).printed
                && final(self).next_input == old(self).next_input,
    {
        match t {
            Token::Print(msg) => {
                let ghost before = self.printed.deep_view();
                self.printed.push(msg.clone());
                assert(self.printed.deep_view() =~= before.push(msg@));
                Ok(Vec::new())
            },
            Token::Error(msg) => Err(EvalError::Raised(msg.clone())),
            Token::GetInput(prompt) => {
                if self.next_input < self.inputs.len() {
                    let line = chars_of(self.inputs[self.next_input].as_str());
                    self.next_input = self.next_input + 1;
                    Ok(line)
                } else {
                    Err(EvalError::InputNeeded(prompt.clone()))
                }
            },
            _ => Err(EvalError::MalformedScope),
        }
    }

    /// Puts `f` in the table, in place of a function of the same name if there is one.
    fn register(&mut self, f: Function)
        ensures
            defines(final(self).functions@, f.name@),
            final(self).frames == old(self).frames,
            (exists|i: int| #[trigger] first_named(old(self).functions@, f.name@, i)
                && final(self).functions@ == old(self).functions@.update(i, f))
                || (!defines(old(self).functions@, f.name@) && final(self).functions@ == old(self).functions@.push(f)),
            exists|i: int| 0 <= i < final(self).functions@.len() && #[trigger] final(self).functions@[i] == f,
    {
        let ghost name = f.name@;
        match find_function(&self.functions, &f.name) {
            Some(i) => {
                let ghost fv = f;
                self.functions.set(i, f);
                assert(self.functions@[i as int].name@ == name);
                assert(self.functions@[i as int] == fv);
            },
            None => {
                let ghost fv = f;
                self.functions.push(f);
                assert(self.functions@[self.functions@.len() - 1].name@ == name);
                assert(self.functions@[self.functions@.len() - 1] == fv);
            },
        }
    }

    /// The replacement of a bare scope whose input and pattern have been evaluated: its
    /// output, evaluated with the capture groups as the innermost frame.
    pub fn rewrite_bare(&mut self, input: &Vec<Token>, pattern: &Vec<Token>, output: &Vec<Token>, fuel: usize) -> (r: Result<Vec<char>, EvalError>)
        ensures
            final(self).frames.deep_view() == old(self).frames.deep_view(),
            match bare_match(input@, pattern@, old(self).frames.deep_view()) {
                Err(e) => r matches Err(e2) && e2 == e,
                Ok(gs) => plain_template(output@) ==> match output_text(output@, old(self).frames.deep_view(), gs) {
                    Ok(s) => r matches Ok(v) && v@ == s,
                    Err(e) => r matches Err(e2) && e2 == e,
                },
            },
        decreases fuel, 2nat, 0nat,
    {
        let arg = match resolve_template(input, &self.frames) {
            Ok(v) => trim_spaces(&v),
            Err(e) => {
                return Err(e);
            },
        };
        match try_pattern(pattern, &arg, &self.frames) {
            Err(e) => Err(e),
            Ok(None) => Err(EvalError::NoArmMatched),
            Ok(Some(gs)) => self.eval_in_frame(output, gs, fuel),
        }
    }

    /// The replacement of a call of function `i` on its evaluated argument `arg`: the
    /// output of the first arm that matches, evaluated with its capture groups as the
    /// innermost frame.
    pub fn rewrite_call(&mut self, i: usize, arg: &Vec<Token>, fuel: usize) -> (r: Result<Vec<char>, EvalError>)
        requires
            i < old(self).functions@.len(),
        ensures
            final(self).frames.deep_view() == old(self).frames.deep_view(),
            match call_match(old(self).functions@[i as int].arms@, arg@, old(self).frames.deep_view()) {
                Err(e) => r matches Err(e2) && e2 == e,
                Ok((j, gs)) => plain_template(old(self).functions@[i as int].arms@[j].output@) ==> match output_text(
                    old(self).functions@[i as int].arms@[j].output@,
                    old(self).frames.deep_view(),
                    gs,
                ) {
                    Ok(s) => r matches Ok(v) && v@ == s,
                    Err(e) => r matches Err(e2) && e2 == e,
                },
            },
        decreases fuel, 2nat, 0nat,
    {
        let a = match resolve_template(arg, &self.frames) {
            Ok(v) => trim_spaces(&v),
            Err(e) => {
                return Err(e);
            },
        };
        match select_arm(&self.functions[i].arms, &a, &self.frames) {
            Err(e) => Err(e),
            Ok(None) => Err(EvalError::NoArmMatched),
            Ok(Some((j, gs))) => {
                proof {
                    let fr = self.frames.deep_view();
                    let f = first_match(self.functions@[i as int].arms@, 0, a@, fr);
                    lemma_first_match_wins(self.functions@[i as int].arms@, a@, fr, f->Ok_0->Some_0.0, f->Ok_0->Some_0.1);
                }
                let output = copy_tokens(&self.functions[i].arms[j].output);
                proof {
                    lemma_template_views(output@, self.functions@[i as int].arms@[j as int].output@, self.frames.deep_view().push(gs.deep_view()));
                }
                self.eval_in_frame(&output, gs, fuel)
            },
        }
    }

    /// Evaluates an output with `gs` pushed as the innermost frame, then pops it.
    fn eval_in_frame(&mut self, output: &Vec<Token>, gs: Vec<String>, fuel: usize) -> (r: Result<Vec<char>, EvalError>)
        ensures
            final(self).frames.deep_view() == old(self).frames.deep_view(),
            plain_template(output@) ==> match output_text(output@, old(self).frames.deep_view(), gs.deep_view()) {
                Ok(s) => r matches Ok(v) && v@ == s,
                Err(e) => r matches Err(e2) && e2 == e,
            },
        decreases fuel, 1nat, 1nat,
    {
        let ghost before = self.frames.deep_view();
        let ghost g = gs.deep_view();
        self.frames.push(gs);
        assert(self.frames.deep_view() =~= before.push(g));
        let r = self.eval_output(output, fuel);
        let ghost mid = self.frames;
        assert(mid.deep_view() == before.push(g));
        let _ = self.frames.pop();
        assert(self.frames@ =~= mid@.drop_last());
        assert forall|i: int| 0 <= i < before.len() implies #[trigger] self.frames.deep_view()[i] == before[i] by {
            assert(self.frames@[i] == mid@[i]);
            assert(mid.deep_view()[i] == mid@[i].deep_view());
        }
        assert(self.frames.deep_view() =~= before);
        r
    }

    /// Evaluates an output template: characters and whitespace as they are, register
    /// references resolved, nested scopes evaluated; the result without surrounding spaces.
    pub fn eval_output(&mut self, output: &Vec<Token>, fuel: usize) -> (r: Result<Vec<char>, EvalError>)
        ensures
            final(self).frames.deep_view() == old(self).frames.deep_view(),
            plain_template(output@) ==> match template_text(output@, old(self).frames.deep_view()) {
                Ok(s) => r matches Ok(v) && v@ == trim(s),
                Err(e) => r matches Err(e2) && e2 == e,
            },
        decreases fuel, 1nat, 0nat,
    {
        if !is_plain(output) {
            return self.eval_nested_output(output, fuel);
        }
        match resolve_template(output, &self.frames) {
            Ok(v) => Ok(trim_spaces(&v)),
            Err(e) => Err(e),
        }
    }

    /// Evaluates an output template that holds scopes or built-in calls.
    fn eval_nested_output(&mut self, output: &Vec<Token>, fuel: usize) -> (r: Result<Vec<char>, EvalError>)
        ensures
            final(self).frames.deep_view() == old(self).frames.deep_view(),
        decreases fuel, 0nat, 0nat,
    {
        let mut out: Vec<char> = Vec::new();
        let mut k: usize = 0;
        let ghost frames0 = self.frames.deep_view();
        while k < output.len()
            invariant
                k <= output@.len(),
                frames0 == old(self).frames.deep_view(),
                self.frames.deep_view() == frames0,
            decreases output@.len() - k,
        {
            match &output[k] {
                Token::Char(c) => {
                    out.push(*c);
                    k = k + 1;
                },
                Token::GenericWhitespace => {
                    out.push(' ');
                    k = k + 1;
                },
                Token::RegisterCall(d, i) => {
                    match resolve_register(&self.frames, *d, *i) {
                        Ok(v) => {
                            let vs = chars_of(v.as_str());
                            append_chars(&mut out, &vs);
                        },
                        Err(e) => {
                            return Err(e);
                        },
                    }
                    k = k + 1;
                },
                Token::ScopeStart | Token::FunctionCall(_) | Token::DefStart(_) | Token::DefGlobalStart(_) => {
                    if fuel == 0 {
                        return Err(EvalError::TooDeep);
                    }
                    match self.eval_at(output, k, fuel - 1) {
                        Ok((text, next)) => {
                            append_chars(&mut out, &text);
                            k = next;
                        },
                        Err(e) => {
                            return Err(e);
                        },
                    }
                },
                Token::Print(_) | Token::Error(_) | Token::GetInput(_) => {
                    match self.run_builtin(&output[k]) {
                        Ok(v) => {
                            append_chars(&mut out, &v);
                        },
                        Err(e) => {
                            return Err(e);
                        },
                    }
                    k = k + 1;
                },
                _ => {
                    return Err(EvalError::MalformedScope);
                },
            }
        }
        Ok(trim_spaces(&out))
    }

    /// Evaluates the scope with head `toks[pos]` whose body, up to the `}` at `end`, holds
    /// only characters, whitespace, register references and separators.
    fn eval_flat(&mut self, toks: &Vec<Token>, pos: usize, end: usize, fuel: usize) -> (r: Result<(Vec<char>, usize), EvalError>)
        requires
            pos < end < toks@.len(),
            flat_end(toks@, pos + 1) == Some(end as int),
            is_head(toks@[pos as int]@),
            toks@[pos as int]@ is FunctionCall ==> defines(old(self).functions@, toks@[pos as int]@->FunctionCall_0),
        ensures
            final(self).frames.deep_view() == old(self).frames.deep_view(),
            flat_scope_result(old(self).functions@, final(self).functions@, old(self).frames.deep_view(), toks@, pos as int, end as int, r),
            r matches Ok((_, nx)) ==> nx == end + 1,
            (toks@[pos as int]@ is FunctionCall && r is Ok) ==> exists|fs2: Seq<Function>, i: int, arg: Seq<Token>|
                #[trigger] call_on_evaluated(fs2, toks@[pos as int]@->FunctionCall_0, i, arg, old(self).frames.deep_view()),
        decreases fuel, 3nat, 0nat,
    {
        let n = toks.len();
        let ghost body = toks@.subrange(pos + 1, end as int);
        proof {
            lemma_flat_end(toks@, pos + 1);
            assert forall|m: int| 0 <= m < body.len() implies is_body_token(#[trigger] body[m]@) by {
                assert(body[m] == toks@[pos + 1 + m]);
            }
            lemma_split_plain(body);
        }
        let arms = split_flat(toks, pos + 1, end);
        let ghost sp = split_body(body);
        proof {
            lemma_arms_view(arms@);
            assert forall|j: int| 0 <= j < arms@.len() implies (#[trigger] arms@[j])@.len() == sp[j].len()
                && forall|m: int| 0 <= m < sp[j].len() ==> #[trigger] arms@[j]@[m]@ == sp[j][m] by {
                lemma_parts_view(arms@[j]@);
            }
        }
        match &toks[pos] {
            Token::ScopeStart => {
                if arms.len() != 1 || arms[0].len() != 3 {
                    return Err(EvalError::MalformedScope);
                }
                match self.rewrite_bare(&arms[0][0], &arms[0][1], &arms[0][2], fuel) {
                    Ok(text) => Ok((text, end + 1)),
                    Err(e) => Err(e),
                }
            },
            Token::FunctionCall(name) => {
                if arms.len() != 1 || arms[0].len() != 1 {
                    return Err(EvalError::MalformedScope);
                }
                let i = match find_function(&self.functions, name) {
                    Some(i) => i,
                    None => {
                        return Err(EvalError::UnknownFunction(name.clone()));
                    },
                };
                proof {
                    let nm = toks@[pos as int]@->FunctionCall_0;
                    assert forall|i2: int| #[trigger] first_named(self.functions@, nm, i2) implies i2 == i by {
                        if i2 < i {
                            assert(self.functions@[i2].name@ != nm);
                        } else if i2 > i {
                            assert(self.functions@[i as int].name@ != nm);
                        }
                    }
                }
                let ghost fs0 = self.functions@;
                let ghost fr0 = self.frames.deep_view();
                proof {
                    assert(arms@[0]@[0]@ == sp[0][0]);
                    assert(plain_template(sp[0][0]));
                }
                let rc = self.rewrite_call(i, &arms[0][0], fuel);
                proof {
                    if rc is Ok {
                        assert(call_on_evaluated(fs0, toks@[pos as int]@->FunctionCall_0, i as int, arms@[0]@[0]@, fr0));
                    }
                }
                match rc {
                    Ok(text) => Ok((text, end + 1)),
                    Err(e) => Err(e),
                }
            },
            Token::DefStart(name) | Token::DefGlobalStart(name) => {
                let global = matches!(toks[pos], Token::DefGlobalStart(_));
                let mut fn_arms: Vec<Arm> = Vec::new();
                let mut j: usize = 0;
                while j < arms.len()
                    invariant
                        j <= arms@.len(),
                        arms@.len() == sp.len(),
                        forall|q: int| 0 <= q < arms@.len() ==> (#[trigger] arms@[q])@.len() == sp[q].len()
                            && forall|m: int| 0 <= m < sp[q].len() ==> #[trigger] arms@[q]@[m]@ == sp[q][m],
                        forall|a: int, p: int| 0 <= a < sp.len() && 0 <= p < sp[a].len() ==> plain_template(#[trigger] sp[a][p]),
                        fn_arms@.len() == j,
                        arms_match(fn_arms@, sp, j as int),
                        forall|q: int| 0 <= q < j ==> (#[trigger] sp[q]).len() == 3,
                        self.frames.deep_view() == old(self).frames.deep_view(),
                        self.functions@ == old(self).functions@,
                        toks@[pos as int]@ is DefStart || toks@[pos as int]@ is DefGlobalStart,
                        sp == split_body(toks@.subrange(pos + 1, end as int)),
                    decreases arms@.len() - j,
                {
                    if arms[j].len() != 3 {
                        proof {
                            assert(sp[j as int].len() != 3);
                        }
                        return Err(EvalError::MalformedScope);
                    }
                    proof {
                        assert(arms@[j as int]@[0]@ == sp[j as int][0]);
                        assert(arms@[j as int]@[1]@ == sp[j as int][1]);
                        assert(arms@[j as int]@[2]@ == sp[j as int][2]);
                        assert(plain_template(sp[j as int][0]));
                        assert(plain_template(sp[j as int][1]));
                        assert(plain_template(sp[j as int][2]));
                    }
                    let input = copy_tokens(&arms[j][0]);
                    let pattern = copy_tokens(&arms[j][1]);
                    let output = copy_tokens(&arms[j][2]);
                    let ghost prev = fn_arms@;
                    fn_arms.push(Arm { input, pattern, output });
                    j = j + 1;
                    proof {
                        let jj = j - 1;
                        assert(fn_arms@[jj].input@ == sp[jj][0]);
                        assert(fn_arms@[jj].pattern@ == sp[jj][1]);
                        assert(fn_arms@[jj].output@ == sp[jj][2]);
                        assert forall|q: int| 0 <= q < j implies sp[q].len() == 3 && (#[trigger] fn_arms@[q]).input@ == sp[q][0]
                            && fn_arms@[q].pattern@ == sp[q][1] && fn_arms@[q].output@ == sp[q][2] by {
                            if q < jj {
                                assert(fn_arms@[q] == prev[q]);
                                assert(arms_match(prev, sp, jj));
                                assert(prev[q].input@ == sp[q][0]);
                            }
                        }
                        assert(arms_match(fn_arms@, sp, j as int));
                    }
                }
                let f = Function { name: name.clone(), global, arms: fn_arms };
                let ghost fv = f;
                proof {
                    let nm = if global { toks@[pos as int]@->DefGlobalStart_0 } else { toks@[pos as int]@->DefStart_0 };
                    assert(fv.name@ == nm);
                    assert(entry_holds(fv, nm, global, sp));
                }
                self.register(f);
                proof {
                    let nm = if global { toks@[pos as int]@->DefGlobalStart_0 } else { toks@[pos as int]@->DefStart_0 };
                    let ofs = old(self).functions@;
                    let nfs = self.functions@;
                    if exists|i: int| #[trigger] first_named(ofs, nm, i) && nfs == ofs.update(i, fv) {
                        let i = choose|i: int| #[trigger] first_named(ofs, nm, i) && nfs == ofs.update(i, fv);
                        assert(nfs[i] == fv);
                        assert(forall|k: int| 0 <= k < ofs.len() && k != i ==> nfs[k] == ofs[k]);
                    } else {
                        assert(nfs.last() == fv);
                        assert(forall|k: int| 0 <= k < ofs.len() ==> nfs[k] == ofs[k]);
                    }
                    assert(registered(ofs, nfs, nm, global, sp));
                }
                proof {
                    let i = choose|i: int| 0 <= i < self.functions@.len() && #[trigger] self.functions@[i] == fv;
                    assert(self.functions@[i].name@ == fv.name@);
                    assert(self.functions@[i].global == global);
                }
                let empty: Vec<char> = Vec::new();
                assert(empty@.len() == 0);
                Ok((empty, end + 1))
            },
            _ => Err(EvalError::MalformedScope),
        }
    }

    /// Evaluates the scope whose head is `toks[pos]`: the scopes nested in a call's
    /// argument or in a bare scope's input and pattern first, left to right, then the
    /// scope itself; scopes in an output are evaluated with that arm's frame active, at
    /// most `fuel` outputs deep. Definitions keep their arms unevaluated. Returns the
    /// replacement text and the position after the scope's closing brace.
    pub fn eval_at(&mut self, toks: &Vec<Token>, pos: usize, fuel: usize) -> (r: Result<(Vec<char>, usize), EvalError>)
        requires
            pos < toks@.len(),
            is_head(toks@[pos as int]@),
        ensures
            r matches Ok((_, next)) ==> pos < next <= toks@.len(),
            (toks@[pos as int]@ matches TokenView::FunctionCall(name) && !defines(old(self).functions@, name))
                ==> (r matches Err(EvalError::UnknownFunction(n)) && n@ == toks@[pos as int]@->FunctionCall_0),
            final(self).frames.deep_view() == old(self).frames.deep_view(),
            (flat_end(toks@, pos + 1) is Some && !(toks@[pos as int]@ is FunctionCall
                && !defines(old(self).functions@, toks@[pos as int]@->FunctionCall_0))) ==> flat_scope_result(
                old(self).functions@,
                final(self).functions@,
                old(self).frames.deep_view(),
                toks@,
                pos as int,
                flat_end(toks@, pos + 1)->Some_0,
                r,
            ),
            (toks@[pos as int]@ is ScopeStart && r is Ok) ==> exists|i: Seq<Token>, p: Seq<Token>|
                #[trigger] bare_match(i, p, old(self).frames.deep_view()) is Ok,
            (toks@[pos as int]@ is FunctionCall && r is Ok) ==> exists|fs2: Seq<Function>, i: int, arg: Seq<Token>|
                #[trigger] call_on_evaluated(fs2, toks@[pos as int]@->FunctionCall_0, i, arg, old(self).frames.deep_view()),
            (toks@[pos as int]@ is DefStart || toks@[pos as int]@ is DefGlobalStart) && r is Ok ==> r->Ok_0.0@.len() == 0
                && defines(final(self).functions@, if toks@[pos as int]@ is DefStart { toks@[pos as int]@->DefStart_0 } else { toks@[pos as int]@->DefGlobalStart_0 }),
            (toks@[pos as int]@ is DefStart || toks@[pos as int]@ is DefGlobalStart) ==> (r is Ok || r matches Err(EvalError::MalformedScope)),
            (toks@[pos as int]@ is DefStart || toks@[pos as int]@ is DefGlobalStart) && r is Ok ==> exists|i: int|
                0 <= i < final(self).functions@.len() && #[trigger] final(self).functions@[i].name@ == (if toks@[pos as int]@ is DefStart {
                    toks@[pos as int]@->DefStart_0
                } else {
                    toks@[pos as int]@->DefGlobalStart_0
                }) && final(self).functions@[i].global == (toks@[pos as int]@ is DefGlobalStart),
        decreases fuel, 3nat, toks@.len() - pos,
    {
        match &toks[pos] {
            Token::FunctionCall(name) => {
                if find_function(&self.functions, name).is_none() {
                    return Err(EvalError::UnknownFunction(name.clone()));
                }
            },
            _ => {},
        }
        let n0 = toks.len();
        match find_flat_end(toks, pos + 1) {
            Some(end) => {
                proof {
                    lemma_flat_end(toks@, pos + 1);
                }
                return self.eval_flat(toks, pos, end, fuel);
            },
            None => {},
        }
        let mut arms: Vec<Vec<Vec<Token>>> = Vec::new();
        let mut parts: Vec<Vec<Token>> = Vec::new();
        let mut part: Vec<Token> = Vec::new();
        let is_def = matches!(toks[pos], Token::DefStart(_)) || matches!(toks[pos], Token::DefGlobalStart(_));
        let is_bare = matches!(toks[pos], Token::ScopeStart);
        let mut part_index: usize = 0;
        let n = toks.len();
        let mut k: usize = pos + 1;
        let mut closed = false;
        let ghost frames0 = self.frames.deep_view();
        while k < toks.len() && !closed
            invariant
                n == toks@.len(),
                pos < k <= toks@.len(),
                frames0 == old(self).frames.deep_view(),
                self.frames.deep_view() == frames0,
                flat_end(toks@, pos + 1) is None,
                toks@[pos as int]@ is FunctionCall ==> defines(old(self).functions@, toks@[pos as int]@->FunctionCall_0),
                is_def == (toks@[pos as int]@ is DefStart || toks@[pos as int]@ is DefGlobalStart),
                is_bare == (toks@[pos as int]@ is ScopeStart),
                toks@[pos as int]@ is FunctionCall ==> plain_template(part@),
                toks@[pos as int]@ is FunctionCall ==> forall|j: int| 0 <= j < parts@.len() ==> plain_template(#[trigger] parts@[j]@),
                toks@[pos as int]@ is FunctionCall ==> forall|a: int, j: int| 0 <= a < arms@.len() && 0 <= j < arms@[a]@.len()
                    ==> plain_template(#[trigger] arms@[a]@[j]@),
            decreases toks@.len() - k,
        {
            let ghost fc = toks@[pos as int]@ is FunctionCall;
            let ghost parts0 = parts@;
            let ghost arms0 = arms@;
            let raw = is_def || (is_bare && part_index >= 2);
            let builtin = matches!(toks[k], Token::Print(_)) || matches!(toks[k], Token::Error(_)) || matches!(toks[k], Token::GetInput(_));
            if raw && builtin {
                part.push(toks[k].copy());
                k = k + 1;
                continue;
            }
            match &toks[k] {
                Token::Char(_) | Token::GenericWhitespace | Token::RegisterCall(_, _) => {
                    let ghost before = part@;
                    let t = toks[k].copy();
                    part.push(t);
                    proof {
                        if fc {
                            assert forall|q: int| 0 <= q < part@.len() implies (#[trigger] part@[q])@ is Char
                                || part@[q]@ is GenericWhitespace || part@[q]@ is RegisterCall by {
                                if q < before.len() {
                                    assert(part@[q] == before[q]);
                                }
                            }
                        }
                    }
                    k = k + 1;
                },
                Token::Colon => {
                    parts.push(part);
                    part = Vec::new();
                    proof {
                        if fc {
                            assert forall|j: int| 0 <= j < parts@.len() implies plain_template(#[trigger] parts@[j]@) by {
                                if j < parts0.len() {
                                    assert(parts@[j] == parts0[j]);
                                }
                            }
                            assert(part@ =~= Seq::<Token>::empty());
                        }
                    }
                    if part_index < 2 {
                        part_index = part_index + 1;
                    } else {
                        part_index = 3;
                    }
                    k = k + 1;
                },
                Token::NewArm => {
                    parts.push(part);
                    let ghost full = parts@;
                    arms.push(parts);
                    parts = Vec::new();
                    part = Vec::new();
                    proof {
                        if fc {
                            assert forall|j: int| 0 <= j < full.len() implies plain_template(#[trigger] full[j]@) by {
                                if j < parts0.len() {
                                    assert(full[j] == parts0[j]);
                                }
                            }
                            assert forall|a: int, j: int| 0 <= a < arms@.len() && 0 <= j < arms@[a]@.len()
                                implies plain_template(#[trigger] arms@[a]@[j]@) by {
                                if a < arms0.len() {
                                    assert(arms@[a] == arms0[a]);
                                } else {
                                    assert(arms@[a]@ == full);
                                }
                            }
                            assert(part@ =~= Seq::<Token>::empty());
                        }
                    }
                    part_index = 0;
                    k = k + 1;
                },
                Token::ScopeEnd => {
                    parts.push(part);
                    let ghost full = parts@;
                    arms.push(parts);
                    parts = Vec::new();
                    part = Vec::new();
                    proof {
                        if fc {
                            assert forall|j: int| 0 <= j < full.len() implies plain_template(#[trigger] full[j]@) by {
                                if j < parts0.len() {
                                    assert(full[j] == parts0[j]);
                                }
                            }
                            assert forall|a: int, j: int| 0 <= a < arms@.len() && 0 <= j < arms@[a]@.len()
                                implies plain_template(#[trigger] arms@[a]@[j]@) by {
                                if a < arms0.len() {
                                    assert(arms@[a] == arms0[a]);
                                } else {
                                    assert(arms@[a]@ == full);
                                }
                            }
                            assert(part@ =~= Seq::<Token>::empty());
                        }
                    }
                    closed = true;
                    k = k + 1;
                },
                Token::ScopeStart | Token::FunctionCall(_) | Token::DefStart(_) | Token::DefGlobalStart(_) => {
                    if raw {
                        match copy_scope(toks, k, &mut part) {
                            Some(next) => {
                                k = next;
                            },
                            None => {
                                return Err(EvalError::MalformedScope);
                            },
                        }
                    } else {
                        match self.eval_at(toks, k, fuel) {
                            Ok((text, next)) => {
                                push_text(&mut part, &text);
                                k = next;
                            },
                            Err(e) => {
                                return Err(e);
                            },
                        }
                    }
                },
                Token::Print(_) | Token::Error(_) | Token::GetInput(_) => {
                    match self.run_builtin(&toks[k]) {
                        Ok(v) => {
                            push_text(&mut part, &v);
                        },
                        Err(e) => {
                            return Err(e);
                        },
                    }
                    k = k + 1;
                },
                Token::RootNodeToken => {
                    k = k + 1;
                },
            }
        }
        if !closed {
            return Err(EvalError::MalformedScope);
        }
        match &toks[pos] {
            Token::ScopeStart => {
                if arms.len() != 1 || arms[0].len() != 3 {
                    return Err(EvalError::MalformedScope);
                }
                match self.rewrite_bare(&arms[0][0], &arms[0][1], &arms[0][2], fuel) {
                    Ok(text) => Ok((text, k)),
                    Err(e) => Err(e),
                }
            },
            Token::FunctionCall(name) => {
                if arms.len() != 1 || arms[0].len() != 1 {
                    return Err(EvalError::MalformedScope);
                }
                let i = match find_function(&self.functions, name) {
                    Some(i) => i,
                    None => {
                        return Err(EvalError::UnknownFunction(name.clone()));
                    },
                };
                let ghost fs0 = self.functions@;
                proof {
                    assert(plain_template(arms@[0]@[0]@));
                }
                let rc = self.rewrite_call(i, &arms[0][0], fuel);
                proof {
                    if rc is Ok {
                        assert(call_on_evaluated(fs0, toks@[pos as int]@->FunctionCall_0, i as int, arms@[0]@[0]@, frames0));
                    }
                }
                match rc {
                    Ok(text) => Ok((text, k)),
                    Err(e) => Err(e),
                }
            },
            Token::DefStart(name) | Token::DefGlobalStart(name) => {
                let global = matches!(toks[pos], Token::DefGlobalStart(_));
                let mut reversed: Vec<Arm> = Vec::new();
                while arms.len() > 0
                    invariant
                        !(toks@[pos as int]@ is FunctionCall),
                        flat_end(toks@, pos + 1) is None,
                        frames0 == old(self).frames.deep_view(),
                        self.frames.deep_view() == frames0,
                    decreases arms@.len(),
                {
                    match arm_of(arms.pop().unwrap()) {
                        Some(a) => reversed.push(a),
                        None => {
                            return Err(EvalError::MalformedScope);
                        },
                    }
                }
                let mut in_order: Vec<Arm> = Vec::new();
                while reversed.len() > 0
                    invariant
                        flat_end(toks@, pos + 1) is None,
                        frames0 == old(self).frames.deep_view(),
                        self.frames.deep_view() == frames0,
                    decreases reversed@.len(),
                {
                    in_order.push(reversed.pop().unwrap());
                }
                self.register(Function { name: name.clone(), global, arms: in_order });
                Ok((Vec::new(), k))
            },
            _ => Err(EvalError::MalformedScope),
        }
    }
}



/// The error for a list that ends while part `part` of a simple scope is read, with
/// `read` characters of the input read so far.
pub open spec fn missing_part(part: nat, read: nat) -> EvalError {
    if part == 0 && read == 0 {
        EvalError::MissingInput
    } else if part == 0 {
        EvalError::ScopeEndedWhileParsingInput
    } else if part == 1 {
        EvalError::MissingPattern
    } else {
        EvalError::MissingOutput
    }
}

/// Reading a simple scope `input : pattern : output }` along the links after node `i`,
/// with `inp`, `pat` and `out` read so far and part `part` being read: the three parts
/// and the index of the closing node, or why the scope is not simple.
pub open spec fn read_simple(arena: Seq<TokenNode>, i: int, fuel: nat, part: nat, inp: Seq<char>, pat: Seq<char>, out: Seq<char>) -> Result<(Seq<char>, Seq<char>, Seq<char>, int), EvalError>
    decreases fuel,
{
    if fuel == 0 || !(0 <= i < arena.len()) || part > 2 {
        Err(EvalError::MalformedScope)
    } else {
        match arena[i].next {
            None => Err(missing_part(part, inp.len())),
            Some(j) => if j >= arena.len() {
                Err(EvalError::MalformedScope)
            } else {
                let f = (fuel - 1) as nat;
                let x = if arena[j as int].token@ is GenericWhitespace {
                    ' '
                } else {
                    arena[j as int].token@->Char_0
                };
                if arena[j as int].token@ is Char || arena[j as int].token@ is GenericWhitespace {
                    if part == 0 {
                        read_simple(arena, j as int, f, part, inp.push(x), pat, out)
                    } else if part == 1 {
                        read_simple(arena, j as int, f, part, inp, pat.push(x), out)
                    } else {
                        read_simple(arena, j as int, f, part, inp, pat, out.push(x))
                    }
                } else if arena[j as int].token@ is Colon {
                    if part < 2 {
                        read_simple(arena, j as int, f, part + 1, inp, pat, out)
                    } else {
                        Err(EvalError::ScopeNotSimple)
                    }
                } else if arena[j as int].token@ is ScopeEnd {
                    if part == 2 {
                        Ok((inp, pat, out, j as int))
                    } else if part == 0 {
                        Err(EvalError::ScopeEndedWhileParsingInput)
                    } else {
                        Err(EvalError::MissingOutput)
                    }
                } else {
                    Err(EvalError::ScopeNotSimple)
                }
            },
        }
    }
}

/// Evaluates the simple scope whose `{` is the node at `start_index`: a scope
/// `{ input : pattern : output }` of characters and whitespace only. The pattern,
/// without surrounding spaces, is matched against the input, likewise trimmed; on a
/// match the node at `start_index` becomes an inert root placeholder, followed by the
/// characters of the trimmed output, and then by what followed the closing `}`.
pub fn eval_simple_scope(linked_tokens: &mut LinkedTokens, start_index: usize) -> (r: Result<(), EvalError>)
    requires
        old(linked_tokens).wf(),
        old(linked_tokens).arena@.len() <= usize::MAX / 2,
    ensures
        final(linked_tokens).wf(),
        r is Err ==> final(linked_tokens).arena@ == old(linked_tokens).arena@,
        start_index >= old(linked_tokens).arena@.len() ==> (r matches Err(EvalError::StartIndexOutOfBounds)),
        start_index < old(linked_tokens).arena@.len() ==> match read_simple(
            old(linked_tokens).arena@,
            start_index as int,
            old(linked_tokens).arena@.len(),
            0,
            Seq::empty(),
            Seq::empty(),
            Seq::empty(),
        ) {
            Err(e) => r matches Err(e2) && e2 == e,
            Ok((inp, pat, outp, end)) => {
                let pattern = trim(pat);
                let input = trim(inp);
                let output = trim(outp);
                let n = old(linked_tokens).arena@.len();
                let a = final(linked_tokens).arena@;
                &&& !regex_compiles(pattern) ==> (r matches Err(EvalError::InvalidPattern))
                &&& regex_compiles(pattern) && captures_in(pattern, input) is None ==> (r matches Err(EvalError::NoArmMatched))
                &&& regex_compiles(pattern) && captures_in(pattern, input) is Some ==> r is Ok
                &&& r is Ok ==> a.len() == n + output.len()
                &&& r is Ok ==> a[start_index as int].token@ == TokenView::RootNodeToken
                &&& r is Ok ==> forall|k: int| 0 <= k < n && k != start_index ==> #[trigger] a[k] == old(linked_tokens).arena@[k]
                &&& r is Ok ==> forall|k: int| 0 <= k < output.len() ==> #[trigger] a[n + k].token@ == char_token(output[k])
                &&& r is Ok && output.len() == 0 ==> a[start_index as int].next == old(linked_tokens).arena@[end].next
                &&& r is Ok && output.len() > 0 ==> a[start_index as int].next == Some(n as usize)
                &&& r is Ok && output.len() > 0 ==> a[n + output.len() - 1].next == old(linked_tokens).arena@[end].next
                &&& r is Ok ==> forall|k: int| 0 <= k < output.len() - 1 ==> #[trigger] a[n + k].next == Some((n + k + 1) as usize)
            },
        },
{
    let len = linked_tokens.arena.len();
    if start_index >= len {
        return Err(EvalError::StartIndexOutOfBounds);
    }
    let ghost a0 = linked_tokens.arena@;
    let mut inp: Vec<char> = Vec::new();
    let mut pat: Vec<char> = Vec::new();
    let mut outp: Vec<char> = Vec::new();
    let mut part: usize = 0;
    let mut current = start_index;
    let mut fuel = len;
    let mut end: usize = 0;
    let mut found = false;
    while !found
        invariant
            linked_tokens.wf(),
            linked_tokens.arena@ == a0,
            len == a0.len(),
            start_index < len,
            current < len,
            part <= 2,
            fuel <= len,
            len <= usize::MAX / 2,
            inp@.len() + pat@.len() + outp@.len() + fuel <= len,
            found ==> end < len,
            found ==> read_simple(a0, start_index as int, len as nat, 0, Seq::empty(), Seq::empty(), Seq::empty())
                == Ok::<(Seq<char>, Seq<char>, Seq<char>, int), EvalError>((inp@, pat@, outp@, end as int)),
            !found ==> read_simple(a0, start_index as int, len as nat, 0, Seq::empty(), Seq::empty(), Seq::empty())
                == read_simple(a0, current as int, fuel as nat, part as nat, inp@, pat@, outp@),
        decreases fuel + (if found { 0int } else { 1int }),
    {
        if fuel == 0 {
            return Err(EvalError::MalformedScope);
        }
        let next = match linked_tokens.arena[current].next {
            None => {
                return Err(if part == 0 && inp.len() == 0 {
                    EvalError::MissingInput
                } else if part == 0 {
                    EvalError::ScopeEndedWhileParsingInput
                } else if part == 1 {
                    EvalError::MissingPattern
                } else {
                    EvalError::MissingOutput
                });
            },
            Some(j) => j,
        };
        let t = &linked_tokens.arena[next].token;
        let is_text = matches!(t, Token::Char(_)) || matches!(t, Token::GenericWhitespace);
        if is_text {
            let x = match t {
                Token::Char(c) => *c,
                _ => ' ',
            };
            if part == 0 {
                inp.push(x);
            } else if part == 1 {
                pat.push(x);
            } else {
                outp.push(x);
            }
        } else if matches!(t, Token::Colon) {
            if part < 2 {
                part = part + 1;
            } else {
                return Err(EvalError::ScopeNotSimple);
            }
        } else if matches!(t, Token::ScopeEnd) {
            if part == 2 {
                end = next;
                found = true;
            } else if part == 0 {
                return Err(EvalError::ScopeEndedWhileParsingInput);
            } else {
                return Err(EvalError::MissingOutput);
            }
        } else {
            return Err(EvalError::ScopeNotSimple);
        }
        current = next;
        fuel = fuel - 1;
    }
    let input = trim_spaces(&inp);
    let pattern = trim_spaces(&pat);
    let output = trim_spaces(&outp);
    let ps = crate::linked_tokens::string_of(&pattern);
    let is = crate::linked_tokens::string_of(&input);
    let cp = match compile_pattern(ps.as_str()) {
        None => {
            return Err(EvalError::InvalidPattern);
        },
        Some(cp) => cp,
    };
    if pattern_captures(&cp, is.as_str()).is_none() {
        return Err(EvalError::NoArmMatched);
    }
    let after = linked_tokens.arena[end].next;
    linked_tokens.arena[start_index] = TokenNode { token: Token::RootNodeToken, next: after };
    assert forall|k: int| 0 <= k < linked_tokens.arena@.len() implies match #[trigger] linked_tokens.arena@[k].next {
        Some(j) => j < linked_tokens.arena@.len(),
        None => true,
    } by {
        if k != start_index {
            assert(linked_tokens.arena@[k] == a0[k]);
        } else {
            assert(match a0[end as int].next {
                Some(j) => j < a0.len(),
                None => true,
            });
        }
    }
    if output.len() > 0 {
        let toks = char_token_vec(&output);
        proof {
            lemma_trim_len(outp@);
        }
        let ghost mid = linked_tokens.arena@;
        let _ = linked_tokens.insert_after(start_index, toks);
        assert forall|k: int| 0 <= k < len && k != start_index implies #[trigger] linked_tokens.arena@[k] == a0[k] by {
            assert(linked_tokens.arena@[k] == mid[k]);
        }
    }
    Ok(())
}


/// The token for the literal character `c`.
fn char_tok(c: char) -> (t: Token)
    ensures
        t@ == char_token(c),
{
    Token::Char(c)
}

/// Removing spaces never makes a text longer.
proof fn lemma_trim_len(s: Seq<char>)
    ensures
        trim(s).len() <= s.len(),
{
    lemma_strip_front_len(s);
    lemma_strip_back_len(strip_front(s));
}

proof fn lemma_strip_front_len(s: Seq<char>)
    ensures
        strip_front(s).len() <= s.len(),
    decreases s.len(),
{
    if s.len() > 0 && s[0] == ' ' {
        lemma_strip_front_len(s.drop_first());
    }
}

proof fn lemma_strip_back_len(s: Seq<char>)
    ensures
        strip_back(s).len() <= s.len(),
    decreases s.len(),
{
    if s.len() > 0 && s.last() == ' ' {
        lemma_strip_back_len(s.drop_last());
    }
}

/// A character token for each character of `cs`.
fn char_token_vec(cs: &Vec<char>) -> (r: Vec<Token>)
    ensures
        r@.len() == cs@.len(),
        forall|m: int| 0 <= m < cs@.len() ==> #[trigger] r@[m]@ == char_token(cs@[m]),
{
    let mut r: Vec<Token> = Vec::new();
    let mut k: usize = 0;
    while k < cs.len()
        invariant
            k <= cs@.len(),
            r@.len() == k,
            forall|m: int| 0 <= m < k ==> #[trigger] r@[m]@ == char_token(cs@[m]),
        decreases cs@.len() - k,
    {
        r.push(char_tok(cs[k]));
        k = k + 1;
    }
    r
}


/// Copies the scope whose head is `toks[k]`, up to its closing brace, onto `part`;
/// returns the position after that brace, or none where it is never closed.
fn copy_scope(toks: &Vec<Token>, k: usize, part: &mut Vec<Token>) -> (r: Option<usize>)
    requires
        k < toks@.len(),
    ensures
        r matches Some(next) ==> k < next <= toks@.len(),
{
    let mut depth: usize = 0;
    let mut m = k;
    while m < toks.len()
        invariant
            k <= m <= toks@.len(),
            m == k ==> depth == 0,
            m > k ==> depth >= 1,
            depth <= m - k,
        decreases toks@.len() - m,
    {
        let t = &toks[m];
        part.push(t.copy());
        if matches!(t, Token::ScopeStart) || matches!(t, Token::FunctionCall(_)) || matches!(t, Token::DefStart(_))
            || matches!(t, Token::DefGlobalStart(_)) {
            depth = depth + 1;
        } else if matches!(t, Token::ScopeEnd) {
            if depth <= 1 {
                return Some(m + 1);
            }
            depth = depth - 1;
        } else if m == k {
            return None;
        }
        m = m + 1;
    }
    None
}

/// A copy of a token sequence.
fn copy_tokens(ts: &Vec<Token>) -> (r: Vec<Token>)
    ensures
        r@.len() == ts@.len(),
        forall|k: int| 0 <= k < ts@.len() ==> (#[trigger] r@[k])@ == ts@[k]@,
        plain_template(ts@) ==> r@ == ts@,
{
    let mut r: Vec<Token> = Vec::new();
    let mut k: usize = 0;
    while k < ts.len()
        invariant
            k <= ts@.len(),
            r@.len() == k,
            forall|m: int| 0 <= m < k ==> (#[trigger] r@[m])@ == ts@[m]@,
        decreases ts@.len() - k,
    {
        r.push(ts[k].copy());
        k = k + 1;
    }
    proof {
        if plain_template(ts@) {
            assert forall|m: int| 0 <= m < ts@.len() implies r@[m] == ts@[m] by {
                assert(ts@[m]@ is Char || ts@[m]@ is GenericWhitespace || ts@[m]@ is RegisterCall);
            }
            assert(r@ =~= ts@);
        }
    }
    r
}

/// Templates whose tokens have the same values have the same text.
proof fn lemma_template_views(a: Seq<Token>, b: Seq<Token>, frames: Seq<Seq<Seq<char>>>)
    requires
        a.len() == b.len(),
        forall|k: int| 0 <= k < a.len() ==> (#[trigger] a[k])@ == b[k]@,
    ensures
        template_text(a, frames) == template_text(b, frames),
        plain_template(a) == plain_template(b),
    decreases a.len(),
{
    if a.len() > 0 {
        lemma_template_views(a.drop_last(), b.drop_last(), frames);
        assert(a.last()@ == b.last()@);
    }
    assert(plain_template(a) ==> plain_template(b)) by {
        if plain_template(a) {
            assert forall|k: int| 0 <= k < b.len() implies (#[trigger] b[k])@ is Char || b[k]@ is GenericWhitespace || b[k]@ is RegisterCall by {
                assert(a[k]@ == b[k]@);
            }
        }
    }
    assert(plain_template(b) ==> plain_template(a)) by {
        if plain_template(b) {
            assert forall|k: int| 0 <= k < a.len() implies (#[trigger] a[k])@ is Char || a[k]@ is GenericWhitespace || a[k]@ is RegisterCall by {
                assert(a[k]@ == b[k]@);
            }
        }
    }
}

/// Whether a template holds only characters, whitespace and register references.
fn is_plain(ts: &Vec<Token>) -> (r: bool)
    ensures
        r == plain_template(ts@),
{
    let mut k: usize = 0;
    while k < ts.len()
        invariant
            k <= ts@.len(),
            forall|m: int| 0 <= m < k ==> (#[trigger] ts@[m])@ is Char || ts@[m]@ is GenericWhitespace || ts@[m]@ is RegisterCall,
        decreases ts@.len() - k,
    {
        match &ts[k] {
            Token::Char(_) | Token::GenericWhitespace | Token::RegisterCall(_, _) => {},
            _ => {
                return false;
            },
        }
        k = k + 1;
    }
    true
}

/// Appends the characters of `vs`.
fn append_chars(out: &mut Vec<char>, vs: &Vec<char>)
    ensures
        final(out)@ == old(out)@ + vs@,
{
    let mut m: usize = 0;
    while m < vs.len()
        invariant
            m <= vs@.len(),
            out@ == old(out)@ + vs@.take(m as int),
        decreases vs@.len() - m,
    {
        out.push(vs[m]);
        m = m + 1;
        assert(out@ =~= old(out)@ + vs@.take(m as int));
    }
    assert(vs@.take(m as int) =~= vs@);
}

} // verus!
