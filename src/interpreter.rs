use vstd::prelude::*;

use ropey::Rope;

use crate::eval::{flat_end, flat_value, is_body_token, is_head, lemma_flat_end, lemma_flat_value, lemma_tok_of, lemma_toks_of, tok_of, toks_of, defines, EvalError, Evaluator, Function};
use crate::parser::lex;
use crate::linked_tokens::{lemma_chain_wf, TokenNode, TokenView};
use crate::linked_tokens::{same_chars, string_of, LinkedTokens, Token};
use crate::parser::is_name_char;
use crate::scope::{find_next_scope, lemma_no_braces_no_scope, locate, no_braces_from};
use crate::text::{rope_char, rope_from_str, rope_insert, rope_len, rope_remove, rope_slice_string, rope_text, rope_to_string};

verus! {

/// How many outputs holding scopes may be evaluated inside each other in one step.
pub const OUTPUT_NESTING: usize = 200;

/// What one step of the interpreter did.
#[derive(Debug)]
pub enum StepOutcome {
    /// No scope is left to rewrite, or the rewrite changed nothing: the text is final.
    Finished,
    /// A scope was rewritten; carries the messages printed while evaluating it.
    Rewrote(Vec<String>),
    /// Evaluation needs a line of input first; carries the prompt. Nothing was changed.
    NeedInput(String),
}

/// A program being rewritten: its text, where to look for the next scope, and the
/// evaluator's state.
pub struct Interpreter {
    text: Rope,
    cursor: usize,
    pub evaluator: Evaluator,
}

impl Interpreter {
    /// The current program text.
    pub closed spec fn text(&self) -> Seq<char> {
        rope_text(self.text)
    }

    /// Where the search for the next scope starts.
    pub closed spec fn cursor(&self) -> nat {
        self.cursor as nat
    }

    /// The function table.
    pub closed spec fn functions(&self) -> Seq<Function> {
        self.evaluator.functions@
    }

    /// The register frames.
    pub closed spec fn frames(&self) -> Seq<Seq<Seq<char>>> {
        self.evaluator.frames.deep_view()
    }

    /// The cursor stays inside the text.
    pub closed spec fn wf(&self) -> bool {
        self.cursor <= rope_text(self.text).len()
    }

    /// An interpreter at the start of `program`, with an empty function table.
    pub fn new(program: &str) -> (r: Interpreter)
        ensures
            r.wf(),
            r.text() == program@,
            r.cursor() == 0,
    {
        let text = rope_from_str(program);
        Interpreter { text, cursor: 0, evaluator: Evaluator::new(Vec::new()) }
    }

    /// Hands in a line of input for the next `get_input(...)`.
    pub fn provide_input(&mut self, line: String)
        requires
            old(self).wf(),
        ensures
            final(self).wf(),
            final(self).text() == old(self).text(),
            final(self).cursor() == old(self).cursor(),
    {
        self.evaluator.inputs.push(line);
    }

    /// The current program text.
    pub fn current_text(&self) -> (r: String)
        ensures
            r@ == self.text(),
    {
        rope_to_string(&self.text)
    }

    /// Locates the next scope, evaluates it and splices its replacement into the text.
    pub fn step(&mut self) -> (r: Result<StepOutcome, EvalError>)
        requires
            old(self).wf(),
        ensures
            final(self).wf(),
            r is Err ==> final(self).text() == old(self).text(),
            r matches Ok(StepOutcome::NeedInput(_)) ==> final(self).text() == old(self).text(),
            r matches Ok(StepOutcome::Finished) ==> final(self).text() == old(self).text(),
            no_braces_from(old(self).text(), old(self).cursor() as int) ==> (r matches Ok(StepOutcome::Finished)),
            locate(old(self).text(), old(self).cursor() as int) == Ok::<Option<(int, int)>, crate::errors::FindingScopeError>(None)
                ==> (r matches Ok(StepOutcome::Finished)),
            locate(old(self).text(), old(self).cursor() as int) is Err ==> (r matches Err(EvalError::Scope(e2))
                && e2 == locate(old(self).text(), old(self).cursor() as int)->Err_0),
            (r matches Ok(StepOutcome::Rewrote(_))) ==> (locate(old(self).text(), old(self).cursor() as int) matches Ok(Some((o, c))) && exists|s: int, x: Seq<char>|
                old(self).cursor() <= s <= o && #[trigger] final(self).text() == old(self).text().subrange(0, s) + x + old(self).text().subrange(c + 1, old(self).text().len() as int)),
            flat_step(old(self).text(), old(self).cursor() as int, old(self).functions(), old(self).frames(), final(self).text(), r),
    {
        proof {
            if no_braces_from(self.text(), self.cursor() as int) {
                lemma_no_braces_no_scope(self.text(), self.cursor() as int);
            }
        }
        let ghost t0 = self.text();
        let n = rope_len(&self.text);
        let (open, close) = match find_next_scope(&self.text, self.cursor) {
            Err(e) => {
                return Err(EvalError::Scope(e));
            },
            Ok(None) => {
                return Ok(StepOutcome::Finished);
            },
            Ok(Some((o, c))) => (o, c),
        };
        let start = head_start(&self.text, self.cursor, open);
        let region = rope_slice_string(&self.text, start, close + 1);
        let region_len = close + 1 - start;
        if region_len == usize::MAX {
            return Err(EvalError::MalformedScope);
        }
        let lt = match LinkedTokens::from_string(region.as_str()) {
            Err(e) => {
                return Err(EvalError::Lex(e));
            },
            Ok(lt) => lt,
        };
        let toks = token_vec(&lt);
        if toks.len() == 0 || !is_head_token(&toks[0]) {
            return Err(EvalError::MalformedScope);
        }
        let ghost fs = self.functions();
        let ghost frames = self.frames();
        let ghost tv = lt.tokens();
        let ghost cond = tv.len() >= 2 && is_head(tv[0]) && flat_end(toks_of(tv), 1) == Some(tv.len() - 1)
            && !(tv[0] is FunctionCall && !defines(fs, tv[0]->FunctionCall_0));
        proof {
            lemma_chain_wf(&lt);
            assert(region@ == t0.subrange(start as int, close + 1));
            if cond {
                lemma_flat_tokens(lt.arena@, toks@, tv);
                assert(toks@[0]@ == tv[0]);
            }
        }
        self.evaluator.printed = Vec::new();
        self.evaluator.next_input = 0;
        let r = self.evaluator.eval_at(&toks, 0, OUTPUT_NESTING);
        proof {
            if cond {
                let e: int = tv.len() - 1;
                assert(flat_end(toks@, 1) == Some(e));
                lemma_flat_value(fs, self.functions(), frames, toks@, 0, e, r);
                assert(toks@.subrange(1, e as int) == toks_of(tv).subrange(1, tv.len() - 1));
            }
        }
        match r {
            Err(EvalError::InputNeeded(prompt)) => {
                self.evaluator.next_input = 0;
                Ok(StepOutcome::NeedInput(prompt))
            },
            Err(e) => Err(e),
            Ok((text, next)) => {
                if next != toks.len() {
                    return Err(EvalError::MalformedScope);
                }
                let used = self.evaluator.next_input;
                let mut dropped: usize = 0;
                while dropped < used && self.evaluator.inputs.len() > 0
                    invariant
                        dropped <= used,
                        t0 == old(self).text(),
                        self.text() == t0,
                        self.cursor() == old(self).cursor(),
                        self.wf(),
                    decreases used - dropped,
                {
                    let _ = self.evaluator.inputs.remove(0);
                    dropped = dropped + 1;
                }
                self.evaluator.next_input = 0;
                let mut printed: Vec<String> = Vec::new();
                while self.evaluator.printed.len() > 0
                    invariant
                        t0 == old(self).text(),
                        self.text() == t0,
                        self.cursor() == old(self).cursor(),
                        self.wf(),
                    decreases self.evaluator.printed@.len(),
                {
                    printed.push(self.evaluator.printed.remove(0));
                }
                let replacement = string_of(&text);
                if same_chars(&text, region.as_str()) {
                    return Ok(StepOutcome::Finished);
                }
                let ghost before = rope_text(self.text);
                rope_remove(&mut self.text, start, close + 1);
                rope_insert(&mut self.text, start, replacement.as_str());
                proof {
                    let t = rope_text(self.text);
                    let x = replacement@;
                    assert(t =~= before.subrange(0, start as int) + x + before.subrange(close + 1, before.len() as int));
                }
                self.cursor = start;
                Ok(StepOutcome::Rewrote(printed))
            },
        }
    }
}

/// What a step does where the located scope, from the start of its head to its `}`,
/// lexes to a head and a body of characters, whitespace, register references and
/// separators only: where its replacement is determined and differs from the region, the
/// region is replaced by it; where evaluation fails, the step fails the same way.
pub open spec fn flat_step(
    t: Seq<char>,
    cursor: int,
    fs: Seq<Function>,
    frames: Seq<Seq<Seq<char>>>,
    new_t: Seq<char>,
    r: Result<StepOutcome, EvalError>,
) -> bool {
    locate(t, cursor) matches Ok(Some((o, c))) ==> {
        let s = head_start_of(t, cursor, o);
        let region = t.subrange(s, c + 1);
        let tv = lex(region)->Ok_0;
        lex(region) is Ok && region.len() < usize::MAX && tv.len() >= 2 && is_head(tv[0])
            && flat_end(toks_of(tv), 1) == Some(tv.len() - 1)
            && !(tv[0] is FunctionCall && !defines(fs, tv[0]->FunctionCall_0)) ==> match flat_value(
            fs,
            frames,
            tv[0],
            toks_of(tv).subrange(1, tv.len() - 1),
        ) {
            Some(Ok(x)) => x != region ==> (r matches Ok(StepOutcome::Rewrote(_)) && new_t == t.subrange(0, s) + x
                + t.subrange(c + 1, t.len() as int)),
            Some(Err(e)) => !(e is InputNeeded) ==> (r matches Err(e2) && e2 == e),
            None => true,
        }
    }
}

/// `flat_end` finds the same `}` in a sequence that agrees up to it.
proof fn lemma_flat_end_same(a: Seq<Token>, b: Seq<Token>, k: int, e: int)
    requires
        0 <= k,
        flat_end(b, k) == Some(e),
        a.len() == b.len(),
        forall|m: int| k <= m <= e ==> #[trigger] a[m] == b[m],
    ensures
        flat_end(a, k) == Some(e),
    decreases b.len() - k,
{
    lemma_flat_end(b, k);
    if k < e {
        lemma_flat_end_same(a, b, k + 1, e);
    }
}

/// The tokens copied out of a lexed arena agree with the tokens of its values over a
/// body of body tokens.
proof fn lemma_flat_tokens(arena: Seq<TokenNode>, toks: Seq<Token>, tv: Seq<TokenView>)
    requires
        toks.len() == tv.len(),
        arena.len() == tv.len() + 1,
        forall|k: int| 0 <= k < toks.len() ==> (#[trigger] toks[k])@ == arena[k + 1].token@,
        forall|k: int| 0 <= k < toks.len() && !(toks[k]@ is FunctionCall || toks[k]@ is DefStart || toks[k]@ is DefGlobalStart
            || toks[k]@ is GetInput || toks[k]@ is Error || toks[k]@ is Print) ==> #[trigger] toks[k] == arena[k + 1].token,
        forall|k: int| 0 <= k < tv.len() ==> #[trigger] tv[k] == arena[k + 1].token@,
        tv.len() >= 2,
        flat_end(toks_of(tv), 1) == Some(tv.len() - 1),
    ensures
        flat_end(toks, 1) == Some(tv.len() - 1),
        toks.subrange(1, tv.len() - 1) == toks_of(tv).subrange(1, tv.len() - 1),
{
    let e = tv.len() - 1;
    lemma_toks_of(tv);
    lemma_flat_end(toks_of(tv), 1);
    assert forall|m: int| 1 <= m <= e implies #[trigger] toks[m] == toks_of(tv)[m] by {
        assert(toks_of(tv)[m] == tok_of(tv[m]));
        assert(is_body_token(tok_of(tv[m])@) || tok_of(tv[m])@ is ScopeEnd);
        let t = arena[m + 1].token;
        assert(t@ == tv[m]);
        assert(toks[m]@ == t@);
        assert(toks[m] == t);
        lemma_tok_of(t);
    }
    lemma_flat_end_same(toks, toks_of(tv), 1, e);
    assert(toks.subrange(1, e) =~= toks_of(tv).subrange(1, e));
}

/// Whether `t` opens a scope.
fn is_head_token(t: &Token) -> (r: bool)
    ensures
        r == is_head(t@),
{
    match t {
        Token::ScopeStart | Token::FunctionCall(_) | Token::DefStart(_) | Token::DefGlobalStart(_) => true,
        _ => false,
    }
}

/// The tokens of a chain, in order.
fn token_vec(lt: &LinkedTokens) -> (r: Vec<Token>)
    requires
        lt.arena@.len() >= 1,
    ensures
        r@.len() == lt.arena@.len() - 1,
        forall|k: int| 0 <= k < r@.len() ==> (#[trigger] r@[k])@ == lt.arena@[k + 1].token@,
        forall|k: int| 0 <= k < r@.len() && !(r@[k]@ is FunctionCall || r@[k]@ is DefStart || r@[k]@ is DefGlobalStart
            || r@[k]@ is GetInput || r@[k]@ is Error || r@[k]@ is Print) ==> #[trigger] r@[k] == lt.arena@[k + 1].token,
{
    let mut r: Vec<Token> = Vec::new();
    let mut k: usize = 1;
    while k < lt.arena.len()
        invariant
            1 <= k <= lt.arena@.len(),
            r@.len() == k - 1,
            forall|m: int| 0 <= m < r@.len() ==> (#[trigger] r@[m])@ == lt.arena@[m + 1].token@,
            forall|m: int| 0 <= m < r@.len() && !(r@[m]@ is FunctionCall || r@[m]@ is DefStart || r@[m]@ is DefGlobalStart
                || r@[m]@ is GetInput || r@[m]@ is Error || r@[m]@ is Print) ==> #[trigger] r@[m] == lt.arena@[m + 1].token,
        decreases lt.arena@.len() - k,
    {
        r.push(lt.arena[k].token.copy());
        k = k + 1;
    }
    r
}

/// The start of the run of name characters that ends at `i`, not before `lo`.
pub open spec fn name_start(t: Seq<char>, lo: int, i: int) -> int
    decreases i - lo,
{
    if i > lo && is_name_char(t[i - 1]) {
        name_start(t, lo, i - 1)
    } else {
        i
    }
}

/// Where the scope whose `{` is at `open` begins: before the name of a call, or before
/// `def name ` / `*def name ` of a definition; never before `cursor`.
pub open spec fn head_start_of(t: Seq<char>, cursor: int, open: int) -> int {
    let s = name_start(t, cursor, open);
    if s == open && open > cursor && t[open - 1] == ' ' {
        let n = name_start(t, cursor, open - 1);
        if n < open - 1 && n - cursor >= 4 && t[n - 1] == ' ' && t[n - 4] == 'd' && t[n - 3] == 'e' && t[n - 2] == 'f' {
            let d = if n - 4 > cursor && t[n - 5] == '*' { n - 5 } else { n - 4 };
            if d == cursor || !is_name_char(t[d - 1]) {
                d
            } else {
                s
            }
        } else {
            s
        }
    } else {
        s
    }
}

fn is_name_char_at(text: &Rope, i: usize) -> (r: bool)
    requires
        i < rope_text(*text).len(),
    ensures
        r == is_name_char(rope_text(*text)[i as int]),
{
    let c = rope_char(text, i);
    ('a' <= c && c <= 'z') || ('A' <= c && c <= 'Z') || ('0' <= c && c <= '9') || c == '_'
}

/// Where the scope whose `{` is at `open` begins: before the name of a call, or before
/// `def name ` / `*def name ` of a definition; never before `cursor`.
fn head_start(text: &Rope, cursor: usize, open: usize) -> (r: usize)
    requires
        cursor <= open < rope_text(*text).len(),
    ensures
        cursor <= r <= open,
        r == head_start_of(rope_text(*text), cursor as int, open as int),
{
    let mut s = open;
    while s > cursor && is_name_char_at(text, s - 1)
        invariant
            cursor <= s <= open,
            open < rope_text(*text).len(),
            name_start(rope_text(*text), cursor as int, open as int) == name_start(rope_text(*text), cursor as int, s as int),
        decreases s,
    {
        s = s - 1;
    }
    if s == open && open > cursor && rope_char(text, open - 1) == ' ' {
        let mut n = open - 1;
        while n > cursor && is_name_char_at(text, n - 1)
            invariant
                cursor <= n < open,
                open < rope_text(*text).len(),
                s == open,
                s == name_start(rope_text(*text), cursor as int, open as int),
                name_start(rope_text(*text), cursor as int, open - 1) == name_start(rope_text(*text), cursor as int, n as int),
            decreases n,
        {
            n = n - 1;
        }
        if n < open - 1 && n - cursor >= 4 && rope_char(text, n - 1) == ' ' && rope_char(text, n - 4) == 'd'
            && rope_char(text, n - 3) == 'e' && rope_char(text, n - 2) == 'f' {
            let mut d = n - 4;
            if d > cursor && rope_char(text, d - 1) == '*' {
                d = d - 1;
            }
            if d == cursor || !is_name_char_at(text, d - 1) {
                s = d;
            }
        }
    }
    s
}

} // verus!
