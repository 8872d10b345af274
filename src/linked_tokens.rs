use vstd::prelude::*;

use vstd::std_specs::iter::IteratorSpec;

use crate::errors::{LinkedTokensError, ParseError};
use crate::parser::{
    digits_only, digits_value, is_builtin, lex, normal_step, pending, run, step, word_def,
    word_error, word_get_input, word_global_def, word_print, ParseState, Parser,
};

verus! {

/// One lexical unit of a program.
#[derive(Clone, Debug, PartialEq)]
pub enum Token {
    Char(char),
    ScopeStart,
    ScopeEnd,
    /// Separates input, pattern and output of an arm.
    Colon,
    /// Separates the arms of a function definition.
    NewArm,
    /// The head `name{` of a function call.
    FunctionCall(String),
    /// The head `def name {` of a function definition.
    DefStart(String),
    /// The head `*def name {` of a globally visible function definition.
    DefGlobalStart(String),
    /// A register reference: depth (number of `^`), then index.
    RegisterCall(usize, usize),
    /// The placeholder held by the root node of an arena.
    RootNodeToken,
    GetInput(String),
    Error(String),
    Print(String),
    /// One collapsed run of spaces, tabs and newlines.
    GenericWhitespace,
}

/// The mathematical value of a token.
pub enum TokenView {
    Char(char),
    ScopeStart,
    ScopeEnd,
    Colon,
    NewArm,
    FunctionCall(Seq<char>),
    DefStart(Seq<char>),
    DefGlobalStart(Seq<char>),
    RegisterCall(nat, nat),
    RootNodeToken,
    GetInput(Seq<char>),
    Error(Seq<char>),
    Print(Seq<char>),
    GenericWhitespace,
}

impl View for Token {
    type V = TokenView;

    open spec fn view(&self) -> TokenView {
        match self {
            Token::Char(c) => TokenView::Char(*c),
            Token::ScopeStart => TokenView::ScopeStart,
            Token::ScopeEnd => TokenView::ScopeEnd,
            Token::Colon => TokenView::Colon,
            Token::NewArm => TokenView::NewArm,
            Token::FunctionCall(s) => TokenView::FunctionCall(s@),
            Token::DefStart(s) => TokenView::DefStart(s@),
            Token::DefGlobalStart(s) => TokenView::DefGlobalStart(s@),
            Token::RegisterCall(d, i) => TokenView::RegisterCall(*d as nat, *i as nat),
            Token::RootNodeToken => TokenView::RootNodeToken,
            Token::GetInput(s) => TokenView::GetInput(s@),
            Token::Error(s) => TokenView::Error(s@),
            Token::Print(s) => TokenView::Print(s@),
            Token::GenericWhitespace => TokenView::GenericWhitespace,
        }
    }
}

impl Token {
    /// A copy of the token.
    pub fn copy(&self) -> (r: Token)
        ensures
            r@ == self@,
            !(self@ is FunctionCall || self@ is DefStart || self@ is DefGlobalStart || self@ is GetInput
                || self@ is Error || self@ is Print) ==> r == *self,
    {
        match self {
            Token::Char(c) => Token::Char(*c),
            Token::ScopeStart => Token::ScopeStart,
            Token::ScopeEnd => Token::ScopeEnd,
            Token::Colon => Token::Colon,
            Token::NewArm => Token::NewArm,
            Token::FunctionCall(s) => Token::FunctionCall(s.clone()),
            Token::DefStart(s) => Token::DefStart(s.clone()),
            Token::DefGlobalStart(s) => Token::DefGlobalStart(s.clone()),
            Token::RegisterCall(d, i) => Token::RegisterCall(*d, *i),
            Token::RootNodeToken => Token::RootNodeToken,
            Token::GetInput(s) => Token::GetInput(s.clone()),
            Token::Error(s) => Token::Error(s.clone()),
            Token::Print(s) => Token::Print(s.clone()),
            Token::GenericWhitespace => Token::GenericWhitespace,
        }
    }
}

/// A token in the arena, with the arena index of its logical successor.
#[derive(Clone, Debug)]
pub struct TokenNode {
    pub token: Token,
    pub next: Option<usize>,
}

/// The decimal digit for `d < 10`.
pub open spec fn digit_char(d: nat) -> char {
    if d == 0 {
        '0'
    } else if d == 1 {
        '1'
    } else if d == 2 {
        '2'
    } else if d == 3 {
        '3'
    } else if d == 4 {
        '4'
    } else if d == 5 {
        '5'
    } else if d == 6 {
        '6'
    } else if d == 7 {
        '7'
    } else if d == 8 {
        '8'
    } else {
        '9'
    }
}

/// The decimal notation of `n`, without leading zeros.
pub open spec fn decimal(n: nat) -> Seq<char>
    decreases n,
{
    if n < 10 {
        seq![digit_char(n)]
    } else {
        decimal(n / 10).push(digit_char(n % 10))
    }
}

/// `n` copies of `c`.
pub open spec fn repeat(c: char, n: nat) -> Seq<char>
    decreases n,
{
    if n == 0 {
        Seq::empty()
    } else {
        repeat(c, (n - 1) as nat).push(c)
    }
}

/// The surface text of one token.
pub open spec fn render_token(t: TokenView) -> Seq<char> {
    match t {
        TokenView::Char(c) => seq![c],
        TokenView::ScopeStart => seq!['{'],
        TokenView::ScopeEnd => seq!['}'],
        TokenView::Colon => seq![':'],
        TokenView::NewArm => seq![';'],
        TokenView::FunctionCall(name) => name.push('{'),
        TokenView::DefStart(name) => seq!['d', 'e', 'f', ' '] + name + seq![' ', '{'],
        TokenView::DefGlobalStart(name) => seq!['*', 'd', 'e', 'f', ' '] + name + seq![' ', '{'],
        TokenView::RegisterCall(depth, index) => repeat('^', depth).push('$') + decimal(index),
        TokenView::RootNodeToken => Seq::empty(),
        TokenView::GetInput(s) => seq!['g', 'e', 't', '_', 'i', 'n', 'p', 'u', 't', '('] + s.push(')'),
        TokenView::Error(s) => seq!['e', 'r', 'r', 'o', 'r', '('] + s.push(')'),
        TokenView::Print(s) => seq!['p', 'r', 'i', 'n', 't', '('] + s.push(')'),
        TokenView::GenericWhitespace => seq![' '],
    }
}

/// The surface text of a token sequence.
pub open spec fn render(ts: Seq<TokenView>) -> Seq<char>
    decreases ts.len(),
{
    if ts.len() == 0 {
        Seq::empty()
    } else {
        render(ts.drop_last()) + render_token(ts.last())
    }
}

/// The tokens met by following successor links from node `i`, at most `fuel` of them.
pub open spec fn walk(arena: Seq<TokenNode>, i: int, fuel: nat) -> Seq<TokenView>
    decreases fuel,
{
    if fuel == 0 || !(0 <= i < arena.len()) {
        Seq::empty()
    } else {
        match arena[i].next {
            None => Seq::empty(),
            Some(j) => if j < arena.len() {
                seq![arena[j as int].token@] + walk(arena, j as int, (fuel - 1) as nat)
            } else {
                Seq::empty()
            },
        }
    }
}

/// The node reached from `i` after `n` successor links, if the list is that long.
pub open spec fn nth_after(arena: Seq<TokenNode>, i: int, n: nat) -> Option<int>
    decreases n,
{
    if !(0 <= i < arena.len()) {
        None
    } else if n == 0 {
        Some(i)
    } else {
        match arena[i].next {
            None => None,
            Some(j) => nth_after(arena, j as int, (n - 1) as nat),
        }
    }
}

/// The index reached from `i` by following `k` successor links, whatever they point at.
pub open spec fn follow(arena: Seq<TokenNode>, i: int, k: nat) -> Option<int>
    decreases k,
{
    if k == 0 {
        Some(i)
    } else {
        match arena[i].next {
            None => None,
            Some(j) => follow(arena, j as int, (k - 1) as nat),
        }
    }
}

/// Nodes laid out in logical order: each links to the one after it, the last to none.
pub open spec fn is_chain(arena: Seq<TokenNode>) -> bool {
    &&& arena.len() >= 1
    &&& forall|k: int|
        0 <= k < arena.len() - 1 ==> (#[trigger] arena[k].next matches Some(j) && j == k + 1)
    &&& arena.last().next is None
}

/// The views of the tokens of nodes `1..` of an arena.
pub open spec fn chain_tokens(arena: Seq<TokenNode>) -> Seq<TokenView> {
    Seq::new((arena.len() - 1) as nat, |k: int| arena[k + 1].token@)
}

/// An arena of token nodes; the logical order starts at the root node at index 0.
#[derive(Clone)]
pub struct LinkedTokens {
    pub arena: Vec<TokenNode>,
}

impl LinkedTokens {
    /// The root node is at index 0 and every successor link stays inside the arena.
    pub open spec fn wf(&self) -> bool {
        &&& self.arena@.len() >= 1
        &&& self.arena@[0].token@ == TokenView::RootNodeToken
        &&& forall|k: int|
            0 <= k < self.arena@.len() ==> match #[trigger] self.arena@[k].next {
                Some(j) => j < self.arena@.len(),
                None => true,
            }
    }

    /// The tokens in logical order (a cyclic list is cut after one step fewer than there are nodes).
    pub open spec fn tokens(&self) -> Seq<TokenView> {
        walk(self.arena@, 0, (self.arena@.len() - 1) as nat)
    }
}

/// Following links through a chain from node `k` gives the tokens of the nodes after `k`.
proof fn lemma_walk_chain(arena: Seq<TokenNode>, k: int, fuel: nat)
    requires
        is_chain(arena),
        0 <= k < arena.len(),
        fuel >= arena.len() - 1 - k,
    ensures
        walk(arena, k, fuel) =~= Seq::new((arena.len() - 1 - k) as nat, |m: int| arena[k + 1 + m].token@),
    decreases arena.len() - k,
{
    if k == arena.len() - 1 {
    } else {
        assert(arena[k].next matches Some(j) && j == k + 1);
        lemma_walk_chain(arena, k + 1, (fuel - 1) as nat);
        let rest = Seq::new((arena.len() - 1 - (k + 1)) as nat, |m: int| arena[k + 1 + 1 + m].token@);
        assert(walk(arena, k, fuel) == seq![arena[k + 1].token@] + rest);
        assert(seq![arena[k + 1].token@] + rest =~= Seq::new((arena.len() - 1 - k) as nat, |m: int| arena[k + 1 + m].token@));
    }
}

/// The logical tokens of a chain are its nodes' tokens after the root.
pub proof fn lemma_chain_tokens(arena: Seq<TokenNode>)
    requires
        is_chain(arena),
    ensures
        walk(arena, 0, (arena.len() - 1) as nat) == chain_tokens(arena),
{
    lemma_walk_chain(arena, 0, (arena.len() - 1) as nat);
    assert(walk(arena, 0, (arena.len() - 1) as nat) =~= chain_tokens(arena));
}

/// Rendering distributes over concatenation.
pub proof fn lemma_render_append(a: Seq<TokenView>, b: Seq<TokenView>)
    ensures
        render(a + b) == render(a) + render(b),
    decreases b.len(),
{
    if b.len() == 0 {
        assert(a + b =~= a);
        assert(render(b) =~= Seq::<char>::empty());
        assert(render(a) + render(b) =~= render(a));
    } else {
        lemma_render_append(a, b.drop_last());
        assert((a + b).drop_last() =~= a + b.drop_last());
        assert((a + b).last() == b.last());
        assert(render(a + b) =~= render(a) + render(b));
    }
}

/// The text of a single token sequence is that token's text.
pub proof fn lemma_render_single(t: TokenView)
    ensures
        render(seq![t]) == render_token(t),
{
    let e = Seq::<TokenView>::empty();
    assert(seq![t].drop_last() =~= e);
    assert(seq![t].last() == t);
    assert(render(e) == Seq::<char>::empty());
    assert(render(seq![t]) == render(e) + render_token(t));
    assert(Seq::<char>::empty() + render_token(t) =~= render_token(t));
}

/// Appends the decimal notation of `n`.
fn push_decimal(out: &mut Vec<char>, n: usize)
    ensures
        final(out)@ == old(out)@ + decimal(n as nat),
    decreases n,
{
    if n >= 10 {
        push_decimal(out, n / 10);
    }
    let d = n % 10;
    let c = if d == 0 {
        '0'
    } else if d == 1 {
        '1'
    } else if d == 2 {
        '2'
    } else if d == 3 {
        '3'
    } else if d == 4 {
        '4'
    } else if d == 5 {
        '5'
    } else if d == 6 {
        '6'
    } else if d == 7 {
        '7'
    } else if d == 8 {
        '8'
    } else {
        '9'
    };
    out.push(c);
    assert(final(out)@ =~= old(out)@ + decimal(n as nat));
}

/// Appends every character of `s`.
fn push_chars(out: &mut Vec<char>, s: &Vec<char>)
    ensures
        final(out)@ == old(out)@ + s@,
{
    let mut i: usize = 0;
    while i < s.len()
        invariant
            0 <= i <= s@.len(),
            out@ == old(out)@ + s@.subrange(0, i as int),
        decreases s@.len() - i,
    {
        out.push(s[i]);
        i = i + 1;
        assert(out@ =~= old(out)@ + s@.subrange(0, i as int));
    }
    assert(s@.subrange(0, i as int) =~= s@);
}

/// Appends the literal characters of `s`.
fn push_literal(out: &mut Vec<char>, s: &str)
    ensures
        final(out)@ == old(out)@ + s@,
{
    let v = chars_of(s);
    push_chars(out, &v);
}

/// Appends the surface text of one token.
fn push_token_text(out: &mut Vec<char>, t: &Token)
    ensures
        final(out)@ == old(out)@ + render_token(t@),
{
    match t {
        Token::Char(c) => out.push(*c),
        Token::ScopeStart => out.push('{'),
        Token::ScopeEnd => out.push('}'),
        Token::Colon => out.push(':'),
        Token::NewArm => out.push(';'),
        Token::FunctionCall(name) => {
            push_literal(out, name.as_str());
            out.push('{');
        },
        Token::DefStart(name) => {
            proof {
                reveal_strlit("def ");
            }
            push_literal(out, "def ");
            push_literal(out, name.as_str());
            out.push(' ');
            out.push('{');
        },
        Token::DefGlobalStart(name) => {
            proof {
                reveal_strlit("*def ");
            }
            push_literal(out, "*def ");
            push_literal(out, name.as_str());
            out.push(' ');
            out.push('{');
        },
        Token::RegisterCall(depth, index) => {
            let mut k: usize = 0;
            while k < *depth
                invariant
                    k <= *depth,
                    out@ == old(out)@ + repeat('^', k as nat),
                decreases *depth - k,
            {
                out.push('^');
                k = k + 1;
                assert(out@ =~= old(out)@ + repeat('^', k as nat)) by {
                    assert(repeat('^', k as nat) == repeat('^', (k - 1) as nat).push('^'));
                }
            }
            out.push('$');
            push_decimal(out, *index);
        },
        Token::RootNodeToken => {},
        Token::GetInput(s) => {
            proof {
                reveal_strlit("get_input(");
            }
            push_literal(out, "get_input(");
            push_literal(out, s.as_str());
            out.push(')');
        },
        Token::Error(s) => {
            proof {
                reveal_strlit("error(");
            }
            push_literal(out, "error(");
            push_literal(out, s.as_str());
            out.push(')');
        },
        Token::Print(s) => {
            proof {
                reveal_strlit("print(");
            }
            push_literal(out, "print(");
            push_literal(out, s.as_str());
            out.push(')');
        },
        Token::GenericWhitespace => out.push(' '),
    }
    assert(final(out)@ =~= old(out)@ + render_token(t@));
}

/// The characters of a string, in order.
pub(crate) fn chars_of(s: &str) -> (r: Vec<char>)
    ensures
        r@ == s@,
{
    broadcast use vstd::string::group_string_axioms;
    let mut it = s.chars();
    let mut r: Vec<char> = Vec::new();
    loop
        invariant
            r@ + it.remaining() == s@,
            it.obeys_prophetic_iter_laws(),
            it.decrease() is Some,
        decreases it.decrease()->Some_0,
    {
        match it.next() {
            Some(c) => {
                r.push(c);
            },
            None => {
                assert(r@ =~= s@);
                return r;
            },
        }
    }
}

/// Relies on `String`'s `FromIterator<&char>`: the string of the given characters, in order.
#[verifier::external_body]
pub(crate) fn string_of(v: &Vec<char>) -> (r: String)
    ensures
        r@ == v@,
{
    v.iter().collect()
}

impl Token {
    /// The surface text of the token: what it renders as in a program.
    pub fn surface_text(&self) -> (r: String)
        ensures
            r@ == render_token(self@),
    {
        let mut out: Vec<char> = Vec::new();
        push_token_text(&mut out, self);
        assert(out@ =~= render_token(self@));
        string_of(&out)
    }
}

impl LinkedTokens {
    /// The program text that the tokens in logical order stand for.
    pub fn to_raw_string(&self) -> (r: String)
        requires
            self.wf(),
        ensures
            r@ == render(self.tokens()),
    {
        let mut out: Vec<char> = Vec::new();
        let n = self.arena.len() - 1;
        let mut current: usize = 0;
        let mut steps: usize = 0;
        let mut done = false;
        while !done && steps < n
            invariant
                self.wf(),
                n == self.arena@.len() - 1,
                steps <= n,
                current <= n,
                done ==> walk(self.arena@, current as int, (n - steps) as nat) == Seq::<TokenView>::empty(),
                render(self.tokens()) == out@ + render(walk(self.arena@, current as int, (n - steps) as nat)),
            decreases (n - steps) + (if done { 0int } else { 1int }),
        {
            match self.arena[current].next {
                None => {
                    done = true;
                },
                Some(j) => {
                    let ghost rest = walk(self.arena@, j as int, (n - steps - 1) as nat);
                    proof {
                        assert(walk(self.arena@, current as int, (n - steps) as nat) == seq![self.arena@[j as int].token@] + rest);
                        lemma_render_append(seq![self.arena@[j as int].token@], rest);
                        lemma_render_single(self.arena@[j as int].token@);
                    }
                    push_token_text(&mut out, &self.arena[j].token);
                    current = j;
                    steps = steps + 1;
                },
            }
        }
        proof {
            assert(walk(self.arena@, current as int, (n - steps) as nat) =~= Seq::<TokenView>::empty());
            assert(render(Seq::<TokenView>::empty()) =~= Seq::<char>::empty());
            assert(out@ + Seq::<char>::empty() =~= out@);
        }
        string_of(&out)
    }
}


/// Links a new node holding `t` after the last node, which must have no successor.
pub(crate) fn append_node(arena: &mut Vec<TokenNode>, t: Token)
    requires
        old(arena)@.len() >= 1,
        old(arena)@.last().next is None,
        old(arena)@.len() < usize::MAX,
    ensures
        final(arena)@ == old(arena)@.update(
            old(arena)@.len() - 1,
            TokenNode { token: old(arena)@.last().token, next: Some(old(arena)@.len() as usize) },
        ).push(TokenNode { token: t, next: None }),
        is_chain(old(arena)@) ==> is_chain(final(arena)@),
        chain_tokens(final(arena)@) == chain_tokens(old(arena)@).push(t@),
{
    let new_index = arena.len();
    let last = new_index - 1;
    arena[last].next = Some(new_index);
    arena.push(TokenNode { token: t, next: None });
    assert(final(arena)@ =~= old(arena)@.update(
        old(arena)@.len() - 1,
        TokenNode { token: old(arena)@.last().token, next: Some(old(arena)@.len() as usize) },
    ).push(TokenNode { token: t, next: None }));
    assert(chain_tokens(final(arena)@) =~= chain_tokens(old(arena)@).push(t@));
}

/// The token sequence after emitting `t`: a whitespace token right after another is dropped.
pub open spec fn emit(out: Seq<TokenView>, t: TokenView) -> Seq<TokenView> {
    if t == TokenView::GenericWhitespace && out.len() > 0 && out.last() == TokenView::GenericWhitespace {
        out
    } else {
        out.push(t)
    }
}

/// Character tokens for each character of `cs`.
pub open spec fn char_tokens(cs: Seq<char>) -> Seq<TokenView>
    decreases cs.len(),
{
    if cs.len() == 0 {
        Seq::empty()
    } else {
        char_tokens(cs.drop_last()).push(char_token(cs.last()))
    }
}

/// The token for the literal character `c`.
pub open spec fn char_token(c: char) -> TokenView {
    TokenView::Char(c)
}

/// Adds a token after the last node, which must have no successor; a whitespace token
/// right after a whitespace token is not added.
pub fn push_while_parsing(arena: &mut Vec<TokenNode>, token: Token)
    requires
        old(arena)@.len() >= 1,
        old(arena)@.last().next is None,
        old(arena)@.len() < usize::MAX,
    ensures
        (token@ is GenericWhitespace && old(arena)@.last().token@ is GenericWhitespace) ==> final(arena)@ == old(arena)@,
        !(token@ is GenericWhitespace && old(arena)@.last().token@ is GenericWhitespace) ==> final(arena)@ == old(arena)@.update(
            old(arena)@.len() - 1,
            TokenNode { token: old(arena)@.last().token, next: Some(old(arena)@.len() as usize) },
        ).push(TokenNode { token: token, next: None }),
        is_chain(old(arena)@) ==> is_chain(final(arena)@),
        lexer_arena(old(arena)@) ==> lexer_arena(final(arena)@)
            && chain_tokens(final(arena)@) == emit(chain_tokens(old(arena)@), token@),
{
    if matches!(token, Token::GenericWhitespace) {
        let last = arena.len() - 1;
        if matches!(arena[last].token, Token::GenericWhitespace) {
            proof {
                if lexer_arena(old(arena)@) {
                    assert(last > 0);
                    assert(chain_tokens(old(arena)@).last() == arena@[last as int].token@);
                }
            }
            return;
        }
    }
    append_node(arena, token);
}

/// The token for the literal character `c`.
fn literal(c: char) -> (t: Token)
    ensures
        t == Token::Char(c),
        t@ == char_token(c),
{
    Token::Char(c)
}

/// Adds a character token for each buffered character, in order, after the last node,
/// which must have no successor.
pub fn empty_buffer_at_end(arena: &mut Vec<TokenNode>, buffer: &Vec<char>)
    requires
        old(arena)@.len() >= 1,
        old(arena)@.last().next is None,
        old(arena)@.len() + buffer@.len() <= usize::MAX,
    ensures
        final(arena)@.len() == old(arena)@.len() + buffer@.len(),
        buffer@.len() == 0 ==> final(arena)@ == old(arena)@,
        forall|k: int| 0 <= k < old(arena)@.len() - 1 ==> #[trigger] final(arena)@[k] == old(arena)@[k],
        final(arena)@[old(arena)@.len() - 1].token == old(arena)@.last().token,
        buffer@.len() > 0 ==> final(arena)@[old(arena)@.len() - 1].next == Some(old(arena)@.len() as usize),
        forall|m: int| 0 <= m < buffer@.len() ==> #[trigger] final(arena)@[old(arena)@.len() + m].token == Token::Char(buffer@[m]),
        forall|m: int| 0 <= m < buffer@.len() - 1 ==> #[trigger] final(arena)@[old(arena)@.len() + m].next == Some((old(arena)@.len() + m + 1) as usize),
        final(arena)@.last().next is None,
        is_chain(old(arena)@) ==> is_chain(final(arena)@),
        chain_tokens(final(arena)@) == chain_tokens(old(arena)@) + char_tokens(buffer@),
{
    let ghost n = old(arena)@.len();
    let mut i: usize = 0;
    while i < buffer.len()
        invariant
            i <= buffer@.len(),
            n == old(arena)@.len(),
            n >= 1,
            arena@.len() == n + i,
            n + buffer@.len() <= usize::MAX,
            i == 0 ==> arena@ == old(arena)@,
            forall|k: int| 0 <= k < n - 1 ==> #[trigger] arena@[k] == old(arena)@[k],
            arena@[n - 1].token == old(arena)@.last().token,
            i > 0 ==> arena@[n - 1].next == Some(n as usize),
            forall|m: int| 0 <= m < i ==> #[trigger] arena@[n + m].token == Token::Char(buffer@[m]),
            forall|m: int| 0 <= m < i - 1 ==> #[trigger] arena@[n + m].next == Some((n + m + 1) as usize),
            arena@.last().next is None,
            is_chain(old(arena)@) ==> is_chain(arena@),
        decreases buffer@.len() - i,
    {
        let ghost prev = arena@;
        let t = literal(buffer[i]);
        append_node(arena, t);
        assert(forall|k: int| 0 <= k < prev.len() - 1 ==> #[trigger] arena@[k] == prev[k]);
        assert(arena@[prev.len() - 1].token == prev.last().token);
        i = i + 1;
    }
    proof {
        lemma_char_tokens(buffer@);
        let lhs = chain_tokens(arena@);
        let rhs = chain_tokens(old(arena)@) + char_tokens(buffer@);
        assert(lhs.len() == rhs.len());
        assert forall|k: int| 0 <= k < lhs.len() implies lhs[k] == rhs[k] by {
            if k < n - 1 {
                if k + 1 < n - 1 {
                    assert(arena@[k + 1] == old(arena)@[k + 1]);
                } else {
                    assert(arena@[k + 1].token == old(arena)@.last().token);
                }
            } else {
                let m = k - (n - 1);
                assert(arena@[n + m].token == Token::Char(buffer@[m]));
            }
        }
        assert(lhs =~= rhs);
    }
}

/// The character tokens of `cs` are one `Char` per character, in order.
pub proof fn lemma_char_tokens(cs: Seq<char>)
    ensures
        char_tokens(cs).len() == cs.len(),
        forall|k: int| 0 <= k < cs.len() ==> #[trigger] char_tokens(cs)[k] == TokenView::Char(cs[k]),
    decreases cs.len(),
{
    if cs.len() > 0 {
        lemma_char_tokens(cs.drop_last());
    }
}

/// A chain that starts with a root node is a well-formed arena.
pub proof fn lemma_chain_wf(lt: &LinkedTokens)
    requires
        is_chain(lt.arena@),
        lt.arena@[0].token@ == TokenView::RootNodeToken,
    ensures
        lt.wf(),
        lt.tokens() == chain_tokens(lt.arena@),
{
    assert forall|k: int| 0 <= k < lt.arena@.len() implies match #[trigger] lt.arena@[k].next {
        Some(j) => j < lt.arena@.len(),
        None => true,
    } by {
        if k < lt.arena@.len() - 1 {
            assert(lt.arena@[k].next matches Some(j) && j == k + 1);
        }
    }
    lemma_chain_tokens(lt.arena@);
}

impl LinkedTokens {
    /// Splices `tokens` in right after the node at `index`: the new nodes go at the end of the
    /// arena, the node at `index` links to the first of them and the last links to where
    /// the node at `index` linked before.
    pub fn insert_after(&mut self, index: usize, tokens: Vec<Token>) -> (r: Result<(), LinkedTokensError>)
        requires
            old(self).wf(),
            old(self).arena@.len() + tokens@.len() <= usize::MAX,
        ensures
            final(self).wf(),
            index >= old(self).arena@.len() ==> r == Err::<(), LinkedTokensError>(LinkedTokensError::InsertionInvalidIndex),
            index < old(self).arena@.len() && tokens@.len() == 0 ==> r == Err::<(), LinkedTokensError>(LinkedTokensError::InsertionEmptyTokens),
            r is Err ==> final(self).arena@ == old(self).arena@,
            index < old(self).arena@.len() && tokens@.len() > 0 ==> {
                let n = old(self).arena@.len();
                let m = tokens@.len();
                &&& r is Ok
                &&& final(self).arena@.len() == n + m
                &&& forall|k: int| 0 <= k < n && k != index ==> #[trigger] final(self).arena@[k] == old(self).arena@[k]
                &&& final(self).arena@[index as int].token == old(self).arena@[index as int].token
                &&& final(self).arena@[index as int].next == Some(n as usize)
                &&& forall|j: int| 0 <= j < m ==> #[trigger] final(self).arena@[n + j].token == tokens@[j]
                &&& forall|j: int| 0 <= j < m - 1 ==> #[trigger] final(self).arena@[n + j].next == Some((n + j + 1) as usize)
                &&& final(self).arena@[n + m - 1].next == old(self).arena@[index as int].next
            },
    {
        let len_arena = self.arena.len();
        if index >= len_arena {
            return Err(LinkedTokensError::InsertionInvalidIndex);
        }
        if tokens.len() == 0 {
            return Err(LinkedTokensError::InsertionEmptyTokens);
        }
        let ghost toks = tokens@;
        let len_tokens = tokens.len();
        let old_next = self.arena[index].next;
        let mut tokens = tokens;
        let mut i: usize = 0;
        while i < len_tokens
            invariant
                old(self).wf(),
                len_arena == old(self).arena@.len(),
                len_tokens == toks.len(),
                len_arena + len_tokens <= usize::MAX,
                index < len_arena,
                old_next == old(self).arena@[index as int].next,
                i <= len_tokens,
                tokens@ == toks.subrange(i as int, len_tokens as int),
                self.arena@.len() == len_arena + i,
                forall|k: int| 0 <= k < len_arena ==> #[trigger] self.arena@[k] == old(self).arena@[k],
                forall|j: int| 0 <= j < i ==> #[trigger] self.arena@[len_arena + j].token == toks[j],
                forall|j: int| 0 <= j < i && j < len_tokens - 1 ==> #[trigger] self.arena@[len_arena + j].next == Some((len_arena + j + 1) as usize),
                i == len_tokens ==> self.arena@[len_arena + len_tokens - 1].next == old_next,
            decreases len_tokens - i,
        {
            let t = tokens.remove(0);
            let next_link = if i == len_tokens - 1 {
                old_next
            } else {
                Some(len_arena + i + 1)
            };
            self.arena.push(TokenNode { token: t, next: next_link });
            i = i + 1;
            assert(tokens@ =~= toks.subrange(i as int, len_tokens as int));
        }
        self.arena[index].next = Some(len_arena);
        assert forall|k: int| 0 <= k < self.arena@.len() implies match #[trigger] self.arena@[k].next {
            Some(j) => j < self.arena@.len(),
            None => true,
        } by {
            if k < len_arena && k != index {
                assert(self.arena@[k] == old(self).arena@[k]);
            } else if k >= len_arena {
                let j = k - len_arena;
                if j < len_tokens - 1 {
                    assert(self.arena@[len_arena + j].next == Some((len_arena + j + 1) as usize));
                }
            }
        }
        Ok(())
    }

    /// Unlinks the `n` nodes that follow the node at `index`; that node then links to
    /// where the last unlinked node linked.
    pub fn remove_range(&mut self, index: usize, n: usize) -> (r: Result<(), LinkedTokensError>)
        requires
            old(self).wf(),
        ensures
            final(self).wf(),
            index >= old(self).arena@.len() ==> r == Err::<(), LinkedTokensError>(LinkedTokensError::RemovalInvalidIndex),
            index < old(self).arena@.len() && nth_after(old(self).arena@, index as int, n as nat) is None
                ==> r == Err::<(), LinkedTokensError>(LinkedTokensError::RemovalRangeTooBig),
            r is Err ==> final(self).arena@ == old(self).arena@,
            index < old(self).arena@.len() ==> match nth_after(old(self).arena@, index as int, n as nat) {
                Some(e) => {
                    &&& r is Ok
                    &&& final(self).arena@ == old(self).arena@.update(
                        index as int,
                        TokenNode { token: old(self).arena@[index as int].token, next: old(self).arena@[e].next },
                    )
                },
                None => r is Err,
            },
    {
        let len_arena = self.arena.len();
        if index >= len_arena {
            return Err(LinkedTokensError::RemovalInvalidIndex);
        }
        if n == 0 {
            proof {
                let a = old(self).arena@;
                assert(a.update(index as int, TokenNode { token: a[index as int].token, next: a[index as int].next }) =~= a);
            }
            return Ok(());
        }
        let mut current = index;
        let mut k: usize = 0;
        while k < n
            invariant
                self.wf(),
                self.arena@ == old(self).arena@,
                len_arena == self.arena@.len(),
                index < len_arena,
                current < len_arena,
                k <= n,
                nth_after(self.arena@, index as int, n as nat) == nth_after(self.arena@, current as int, (n - k) as nat),
            decreases n - k,
        {
            match self.arena[current].next {
                Some(j) => {
                    current = j;
                },
                None => {
                    return Err(LinkedTokensError::RemovalRangeTooBig);
                },
            }
            k = k + 1;
        }
        let new_next = self.arena[current].next;
        self.arena[index].next = new_next;
        assert(self.arena@ =~= old(self).arena@.update(
            index as int,
            TokenNode { token: old(self).arena@[index as int].token, next: old(self).arena@[current as int].next },
        ));
        assert forall|m: int| 0 <= m < self.arena@.len() implies match #[trigger] self.arena@[m].next {
            Some(j) => j < self.arena@.len(),
            None => true,
        } by {
            if m != index {
                assert(self.arena@[m] == old(self).arena@[m]);
            } else {
                assert(match old(self).arena@[current as int].next {
                    Some(j) => j < self.arena@.len(),
                    None => true,
                });
            }
        }
        Ok(())
    }

    /// Links the node at `start_index` directly to the node at `end_index`.
    pub fn remove_between_indices(&mut self, start_index: usize, end_index: usize) -> (r: Result<(), LinkedTokensError>)
        requires
            old(self).wf(),
        ensures
            final(self).wf(),
            start_index >= old(self).arena@.len() || end_index >= old(self).arena@.len()
                ==> r == Err::<(), LinkedTokensError>(LinkedTokensError::RemovalInvalidIndex)
                && final(self).arena@ == old(self).arena@,
            start_index < old(self).arena@.len() && end_index < old(self).arena@.len() ==> {
                &&& r is Ok
                &&& final(self).arena@ == old(self).arena@.update(
                    start_index as int,
                    TokenNode { token: old(self).arena@[start_index as int].token, next: Some(end_index) },
                )
            },
    {
        let len_arena = self.arena.len();
        if start_index >= len_arena || end_index >= len_arena {
            return Err(LinkedTokensError::RemovalInvalidIndex);
        }
        self.arena[start_index].next = Some(end_index);
        assert(self.arena@ =~= old(self).arena@.update(
            start_index as int,
            TokenNode { token: old(self).arena@[start_index as int].token, next: Some(end_index) },
        ));
        assert forall|m: int| 0 <= m < self.arena@.len() implies match #[trigger] self.arena@[m].next {
            Some(j) => j < self.arena@.len(),
            None => true,
        } by {
            if m != start_index {
                assert(self.arena@[m] == old(self).arena@[m]);
            }
        }
        Ok(())
    }

    /// Rebuilds the arena from the tokens in logical order, dropping unlinked nodes.
    pub fn collect_garbage(&mut self)
        requires
            old(self).wf(),
        ensures
            final(self).wf(),
            is_chain(final(self).arena@),
            final(self).tokens() == old(self).tokens(),
            render(final(self).tokens()) == render(old(self).tokens()),
            final(self).arena@.len() == old(self).tokens().len() + 1,
    {
        let n = self.arena.len() - 1;
        let mut new_arena: Vec<TokenNode> = vec![TokenNode { token: Token::RootNodeToken, next: None }];
        let mut current: usize = 0;
        let mut steps: usize = 0;
        let mut done = false;
        assert(chain_tokens(new_arena@) =~= Seq::<TokenView>::empty());
        while !done && steps < n
            invariant
                self.wf(),
                self.arena@ == old(self).arena@,
                n == self.arena@.len() - 1,
                n < usize::MAX,
                steps <= n,
                current <= n,
                is_chain(new_arena@),
                new_arena@.len() == steps + 1,
                new_arena@[0].token@ == TokenView::RootNodeToken,
                done ==> walk(self.arena@, current as int, (n - steps) as nat) == Seq::<TokenView>::empty(),
                self.tokens() == chain_tokens(new_arena@) + walk(self.arena@, current as int, (n - steps) as nat),
            decreases (n - steps) + (if done { 0int } else { 1int }),
        {
            match self.arena[current].next {
                None => {
                    done = true;
                },
                Some(j) => {
                    let ghost rest = walk(self.arena@, j as int, (n - steps - 1) as nat);
                    assert(walk(self.arena@, current as int, (n - steps) as nat) == seq![self.arena@[j as int].token@] + rest);
                    let t = self.arena[j].token.copy();
                    append_node(&mut new_arena, t);
                    assert(self.tokens() =~= chain_tokens(new_arena@) + rest);
                    current = j;
                    steps = steps + 1;
                },
            }
        }
        assert(walk(self.arena@, current as int, (n - steps) as nat) =~= Seq::<TokenView>::empty());
        assert(self.tokens() =~= chain_tokens(new_arena@));
        self.arena = new_arena;
        proof {
            lemma_chain_wf(self);
        }
    }
}


/// An arena being filled by the lexer: a chain that starts with the root node.
pub open spec fn lexer_arena(arena: Seq<TokenNode>) -> bool {
    &&& is_chain(arena)
    &&& arena[0].token@ == TokenView::RootNodeToken
}

/// Whether the characters of `v` are those of `w`.
pub(crate) fn same_chars(v: &Vec<char>, w: &str) -> (r: bool)
    ensures
        r == (v@ == w@),
{
    let ws = chars_of(w);
    if v.len() != ws.len() {
        assert(v@.len() != ws@.len());
        return false;
    }
    let mut k: usize = 0;
    while k < v.len()
        invariant
            v@.len() == ws@.len(),
            ws@ == w@,
            k <= v@.len(),
            forall|m: int| 0 <= m < k ==> v@[m] == ws@[m],
        decreases v@.len() - k,
    {
        if v[k] != ws[k] {
            assert(v@[k as int] != ws@[k as int]);
            return false;
        }
        k = k + 1;
    }
    assert(v@ =~= ws@);
    true
}

fn is_word_def(v: &Vec<char>) -> (r: bool)
    ensures
        r == (v@ == word_def()),
{
    proof {
        reveal_strlit("def");
        assert("def"@ =~= word_def());
    }
    same_chars(v, "def")
}

fn is_word_global_def(v: &Vec<char>) -> (r: bool)
    ensures
        r == (v@ == word_global_def()),
{
    proof {
        reveal_strlit("*def");
        assert("*def"@ =~= word_global_def());
    }
    same_chars(v, "*def")
}

fn is_word_get_input(v: &Vec<char>) -> (r: bool)
    ensures
        r == (v@ == word_get_input()),
{
    proof {
        reveal_strlit("get_input");
        assert("get_input"@ =~= word_get_input());
    }
    same_chars(v, "get_input")
}

fn is_word_print(v: &Vec<char>) -> (r: bool)
    ensures
        r == (v@ == word_print()),
{
    proof {
        reveal_strlit("print");
        assert("print"@ =~= word_print());
    }
    same_chars(v, "print")
}

fn is_word_error(v: &Vec<char>) -> (r: bool)
    ensures
        r == (v@ == word_error()),
{
    proof {
        reveal_strlit("error");
        assert("error"@ =~= word_error());
    }
    same_chars(v, "error")
}

proof fn lemma_repeat_len(c: char, n: nat)
    ensures
        repeat(c, n).len() == n,
    decreases n,
{
    if n > 0 {
        lemma_repeat_len(c, (n - 1) as nat);
    }
}

/// `n` copies of `c`.
fn repeated(c: char, n: usize) -> (r: Vec<char>)
    ensures
        r@ == repeat(c, n as nat),
{
    let mut r: Vec<char> = Vec::new();
    let mut k: usize = 0;
    while k < n
        invariant
            k <= n,
            r@ == repeat(c, k as nat),
        decreases n - k,
    {
        r.push(c);
        k = k + 1;
        assert(r@ =~= repeat(c, k as nat)) by {
            assert(repeat(c, k as nat) == repeat(c, (k - 1) as nat).push(c));
        }
    }
    r
}

/// The characters of `v` after the first.
fn tail_chars(v: &Vec<char>) -> (r: Vec<char>)
    requires
        v@.len() >= 1,
    ensures
        r@ == v@.drop_first(),
{
    let mut r: Vec<char> = Vec::new();
    let mut k: usize = 1;
    while k < v.len()
        invariant
            1 <= k <= v@.len(),
            r@ == v@.subrange(1, k as int),
        decreases v@.len() - k,
    {
        r.push(v[k]);
        k = k + 1;
        assert(r@ =~= v@.subrange(1, k as int));
    }
    assert(r@ =~= v@.drop_first());
    r
}

/// A prefix of a digit string never has a larger value than the whole.
proof fn lemma_digits_prefix(ds: Seq<char>, j: int)
    requires
        0 <= j <= ds.len(),
    ensures
        digits_value(ds.take(j)) <= digits_value(ds),
    decreases ds.len() - j,
{
    if j < ds.len() {
        lemma_digits_prefix(ds, j + 1);
        assert(ds.take(j + 1).drop_last() =~= ds.take(j));
    } else {
        assert(ds.take(j) =~= ds);
    }
}

/// The register index written by the digits `ds`, if it fits in a `usize`.
fn parse_index(ds: &Vec<char>) -> (r: Option<usize>)
    requires
        digits_only(ds@),
    ensures
        r is Some <==> digits_value(ds@) <= usize::MAX,
        r is Some ==> r->0 == digits_value(ds@),
{
    let mut v: usize = 0;
    let mut k: usize = 0;
    assert(ds@.take(0) =~= Seq::<char>::empty());
    while k < ds.len()
        invariant
            digits_only(ds@),
            k <= ds@.len(),
            v == digits_value(ds@.take(k as int)),
        decreases ds@.len() - k,
    {
        let c = ds[k];
        assert(crate::parser::is_digit(ds@[k as int]));
        let d = ((c as u32) - ('0' as u32)) as usize;
        assert(ds@.take(k + 1).drop_last() =~= ds@.take(k as int));
        assert(ds@.take(k + 1).last() == c);
        match v.checked_mul(10) {
            None => {
                proof {
                    lemma_digits_prefix(ds@, k + 1);
                }
                return None;
            },
            Some(m) => match m.checked_add(d) {
                None => {
                    proof {
                        lemma_digits_prefix(ds@, k + 1);
                    }
                    return None;
                },
                Some(x) => {
                    v = x;
                },
            },
        }
        k = k + 1;
    }
    assert(ds@.take(k as int) =~= ds@);
    Some(v)
}

fn is_name_char_exec(c: char) -> (r: bool)
    ensures
        r == crate::parser::is_name_char(c),
{
    ('a' <= c && c <= 'z') || ('A' <= c && c <= 'Z') || ('0' <= c && c <= '9') || c == '_'
}

/// One character read in the normal state.
fn lex_normal(parser: &mut Parser, arena: &mut Vec<TokenNode>, c: char)
    requires
        old(parser)@.state == ParseState::Normal,
        lexer_arena(old(arena)@),
        old(arena)@.len() + pending(old(parser)@) < usize::MAX,
    ensures
        lexer_arena(final(arena)@),
        (final(parser)@, chain_tokens(final(arena)@)) == normal_step(old(parser)@, chain_tokens(old(arena)@), c),
        final(arena)@.len() + pending(final(parser)@) <= old(arena)@.len() + pending(old(parser)@) + 1,
        final(parser)@.index == old(parser)@.index || final(parser)@.index.len() == 0,
{
    if c == '{' {
        let n = parser.buffer.len();
        if n == 0 {
            push_while_parsing(arena, Token::ScopeStart);
        } else if parser.buffer[0] == '*' {
            push_while_parsing(arena, Token::Char('*'));
            if n == 1 {
                push_while_parsing(arena, Token::ScopeStart);
            } else {
                let name = tail_chars(&parser.buffer);
                push_while_parsing(arena, Token::FunctionCall(string_of(&name)));
            }
        } else {
            push_while_parsing(arena, Token::FunctionCall(string_of(&parser.buffer)));
        }
        parser.reset_buffers();
    } else if c == '}' || c == ':' || c == ';' {
        empty_buffer_at_end(arena, &parser.buffer);
        let t = if c == '}' {
            Token::ScopeEnd
        } else if c == ':' {
            Token::Colon
        } else {
            Token::NewArm
        };
        push_while_parsing(arena, t);
        parser.reset_buffers();
    } else if c == '^' {
        empty_buffer_at_end(arena, &parser.buffer);
        parser.reset_buffers();
        parser.state = ParseState::PotRegisterCall;
        parser.depth = 1;
    } else if c == '$' {
        empty_buffer_at_end(arena, &parser.buffer);
        parser.reset_buffers();
        parser.state = ParseState::InRegisterCallParseIndex;
    } else if c == ' ' || c == '\t' || c == '\n' {
        if is_word_def(&parser.buffer) {
            parser.reset_buffers();
            parser.state = ParseState::ParsingDefFunctionName;
        } else if is_word_global_def(&parser.buffer) {
            parser.reset_buffers();
            parser.state = ParseState::ParsingDefFunctionName;
            parser.global = true;
        } else {
            empty_buffer_at_end(arena, &parser.buffer);
            push_while_parsing(arena, Token::GenericWhitespace);
            parser.reset_buffers();
        }
    } else if c == '/' {
        empty_buffer_at_end(arena, &parser.buffer);
        parser.reset_buffers();
        parser.state = ParseState::PotComment;
    } else if is_name_char_exec(c) {
        parser.buffer.push(c);
    } else if c == '*' {
        empty_buffer_at_end(arena, &parser.buffer);
        parser.reset_buffers();
        parser.buffer.push('*');
        assert(parser.buffer@ =~= seq!['*']);
    } else if c == '\\' {
        empty_buffer_at_end(arena, &parser.buffer);
        parser.reset_buffers();
        parser.state = ParseState::Escape;
    } else if c == '(' && (is_word_get_input(&parser.buffer) || is_word_print(&parser.buffer) || is_word_error(&parser.buffer)) {
        parser.state = ParseState::InBuiltinArgument;
        parser.depth = 0;
        parser.index.clear();
        parser.global = false;
        parser.argument.clear();
        assert(parser.index@ =~= Seq::<char>::empty());
        assert(parser.argument@ =~= Seq::<char>::empty());
    } else {
        empty_buffer_at_end(arena, &parser.buffer);
        push_while_parsing(arena, Token::Char(c));
        parser.reset_buffers();
    }
}

/// One character read in any state.
fn lex_step(parser: &mut Parser, arena: &mut Vec<TokenNode>, c: char) -> (r: Result<(), ParseError>)
    requires
        lexer_arena(old(arena)@),
        old(arena)@.len() + pending(old(parser)@) < usize::MAX,
        digits_only(old(parser)@.index),
        old(parser)@.state == ParseState::InBuiltinArgument ==> is_builtin(old(parser)@.buffer),
    ensures
        match step(old(parser)@, chain_tokens(old(arena)@), c) {
            Ok((p, out)) => {
                &&& r is Ok
                &&& final(parser)@ == p
                &&& chain_tokens(final(arena)@) == out
                &&& lexer_arena(final(arena)@)
                &&& final(arena)@.len() + pending(final(parser)@) <= old(arena)@.len() + pending(old(parser)@) + 1
                &&& digits_only(final(parser)@.index)
                &&& final(parser)@.state == ParseState::InBuiltinArgument ==> is_builtin(final(parser)@.buffer)
            },
            Err(e) => r == Err::<(), ParseError>(e),
        },
{
    match parser.state {
        ParseState::Normal => {
            lex_normal(parser, arena, c);
            if parser.state == ParseState::InBuiltinArgument {
                assert(is_builtin(parser@.buffer));
            }
        },
        ParseState::PotRegisterCall => {
            if c == '^' {
                parser.depth = parser.depth + 1;
            } else if c == '$' {
                parser.state = ParseState::InRegisterCallParseIndex;
            } else {
                let carets = repeated('^', parser.depth);
                proof {
                    lemma_repeat_len('^', parser.depth as nat);
                }
                empty_buffer_at_end(arena, &carets);
                parser.reset_buffers();
                parser.state = ParseState::Normal;
                lex_normal(parser, arena, c);
            }
        },
        ParseState::InRegisterCallParseIndex => {
            if '0' <= c && c <= '9' {
                parser.index.push(c);
            } else if c == ' ' || c == '\t' || c == '\n' {
                if parser.index.len() == 0 {
                    return Err(ParseError::IndexMissingInRegisterCall);
                }
                match parse_index(&parser.index) {
                    None => {
                        return Err(ParseError::RegisterIndexTooLarge);
                    },
                    Some(v) => {
                        push_while_parsing(arena, Token::RegisterCall(parser.depth, v));
                        parser.reset_buffers();
                        parser.state = ParseState::Normal;
                    },
                }
            } else {
                return Err(ParseError::InvalidRegisterIndexCharacter(c));
            }
        },
        ParseState::ParsingDefFunctionName => {
            if is_name_char_exec(c) {
                parser.buffer.push(c);
            } else if c == ' ' {
                parser.state = ParseState::ExpectScopeStart;
            } else {
                return Err(ParseError::InvalidFunctionNameCharacter(c));
            }
        },
        ParseState::ExpectScopeStart => {
            if c == '{' {
                let name = string_of(&parser.buffer);
                if parser.global {
                    push_while_parsing(arena, Token::DefGlobalStart(name));
                } else {
                    push_while_parsing(arena, Token::DefStart(name));
                }
                parser.reset_buffers();
                parser.state = ParseState::Normal;
            } else {
                return Err(ParseError::ExpectedScopeStartAfterFunctionDefinition);
            }
        },
        ParseState::PotComment => {
            if c == '/' {
                parser.reset_buffers();
                parser.state = ParseState::InComment;
            } else {
                push_while_parsing(arena, Token::Char('/'));
                push_while_parsing(arena, Token::Char(c));
                parser.reset_buffers();
                parser.state = ParseState::Normal;
            }
        },
        ParseState::InComment => {
            if c == '\n' {
                parser.reset_buffers();
                parser.state = ParseState::Normal;
            }
        },
        ParseState::Escape => {
            push_while_parsing(arena, Token::Char(c));
            parser.reset_buffers();
            parser.state = ParseState::Normal;
        },
        ParseState::InBuiltinArgument => {
            if c == ')' {
                let arg = string_of(&parser.argument);
                let t = if is_word_get_input(&parser.buffer) {
                    Token::GetInput(arg)
                } else if is_word_print(&parser.buffer) {
                    Token::Print(arg)
                } else {
                    Token::Error(arg)
                };
                push_while_parsing(arena, t);
                parser.reset_buffers();
                parser.state = ParseState::Normal;
            } else {
                parser.argument.push(c);
            }
        },
    }
    Ok(())
}


/// Once the lexer has failed on a prefix, it fails the same way on the whole text.
proof fn lemma_run_error_persists(s: Seq<char>, k: int)
    requires
        0 <= k <= s.len(),
        run(s.take(k)) is Err,
    ensures
        run(s) == run(s.take(k)),
    decreases s.len() - k,
{
    if k == s.len() {
        assert(s.take(k) =~= s);
    } else {
        assert(s.take(k + 1).drop_last() =~= s.take(k));
        lemma_run_error_persists(s, k + 1);
    }
}

impl LinkedTokens {
    /// Splits a program text into tokens, linked in order after the root node.
    pub fn from_string(s: &str) -> (r: Result<LinkedTokens, ParseError>)
        requires
            s@.len() < usize::MAX,
        ensures
            match lex(s@) {
                Ok(ts) => r matches Ok(lt) && lt.wf() && is_chain(lt.arena@) && lt.tokens() == ts,
                Err(e) => r == Err::<LinkedTokens, ParseError>(e),
            },
    {
        let chars = chars_of(s);
        let mut arena: Vec<TokenNode> = vec![TokenNode { token: Token::RootNodeToken, next: None }];
        let mut parser = Parser::new();
        let mut i: usize = 0;
        proof {
            assert(chars@.take(0) =~= Seq::<char>::empty());
            assert(chain_tokens(arena@) =~= Seq::<TokenView>::empty());
        }
        while i < chars.len()
            invariant
                chars@ == s@,
                s@.len() < usize::MAX,
                i <= chars@.len(),
                lexer_arena(arena@),
                run(chars@.take(i as int)) == Ok::<(crate::parser::ParserView, Seq<TokenView>), ParseError>((parser@, chain_tokens(arena@))),
                arena@.len() + pending(parser@) <= i + 1,
                digits_only(parser@.index),
                parser@.state == ParseState::InBuiltinArgument ==> is_builtin(parser@.buffer),
            decreases chars@.len() - i,
        {
            proof {
                assert(chars@.take(i + 1).drop_last() =~= chars@.take(i as int));
                assert(chars@.take(i + 1).last() == chars@[i as int]);
            }
            match lex_step(&mut parser, &mut arena, chars[i]) {
                Err(e) => {
                    proof {
                        lemma_run_error_persists(chars@, i + 1);
                    }
                    return Err(e);
                },
                Ok(()) => {},
            }
            i = i + 1;
        }
        proof {
            assert(chars@.take(i as int) =~= chars@);
        }
        match parser.state {
            ParseState::Normal => {
                empty_buffer_at_end(&mut arena, &parser.buffer);
            },
            ParseState::PotComment => {
                push_while_parsing(&mut arena, Token::Char('/'));
            },
            ParseState::PotRegisterCall => {
                let carets = repeated('^', parser.depth);
                proof {
                    lemma_repeat_len('^', parser.depth as nat);
                }
                empty_buffer_at_end(&mut arena, &carets);
            },
            ParseState::ExpectScopeStart => {
                return Err(ParseError::ExpectedScopeStartAfterFunctionDefinition);
            },
            _ => {
                return Err(ParseError::InputEndedUnexpectedly);
            },
        }
        let lt = LinkedTokens { arena };
        proof {
            lemma_chain_wf(&lt);
        }
        Ok(lt)
    }
}


/// In a well-formed arena every node reachable from the root by successor links lies
/// inside the arena. Every editing operation keeps the arena well formed, so this holds
/// after any sequence of successful insertions and removals.
pub proof fn lemma_reachable_in_bounds(lt: &LinkedTokens, k: nat)
    requires
        lt.wf(),
    ensures
        follow(lt.arena@, 0, k) matches Some(j) ==> 0 <= j < lt.arena@.len(),
{
    lemma_follow_in_bounds(lt, 0, k);
}

proof fn lemma_follow_in_bounds(lt: &LinkedTokens, i: int, k: nat)
    requires
        lt.wf(),
        0 <= i < lt.arena@.len(),
    ensures
        follow(lt.arena@, i, k) matches Some(j) ==> 0 <= j < lt.arena@.len(),
    decreases k,
{
    if k > 0 {
        match lt.arena@[i].next {
            None => {},
            Some(j) => {
                lemma_follow_in_bounds(lt, j as int, (k - 1) as nat);
            },
        }
    }
}

} // verus!
