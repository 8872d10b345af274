use vstd::prelude::*;

use crate::errors::ParseError;
use crate::linked_tokens::{char_token, char_tokens, emit, repeat, TokenView};

verus! {

/// What the lexer is in the middle of.
#[derive(Debug, Clone, Copy, PartialEq, Eq, Structural)]
pub enum ParseState {
    /// Between tokens; the buffer may hold a candidate name or keyword.
    Normal,
    /// After one or more `^`: a register reference may follow.
    PotRegisterCall,
    /// After `$`: reading the digits of a register index.
    InRegisterCallParseIndex,
    /// After `def ` or `*def `: reading the name of the defined function.
    ParsingDefFunctionName,
    /// After the name of a defined function and a space: a `{` must follow.
    ExpectScopeStart,
    /// After one `/`: a comment may start.
    PotComment,
    /// Inside a comment, up to the end of the line.
    InComment,
    /// After `\`: the next character is literal.
    Escape,
    /// After `get_input(`, `print(` or `error(`: reading the argument up to `)`.
    InBuiltinArgument,
}

/// The lexer's working state.
pub struct Parser {
    pub state: ParseState,
    /// A candidate function name or keyword, or the name of a defined function.
    pub buffer: Vec<char>,
    /// The number of `^` of a register reference being read.
    pub depth: usize,
    /// The digits of a register index being read.
    pub index: Vec<char>,
    /// Whether the function being defined is global.
    pub global: bool,
    /// The argument of a built-in call being read.
    pub argument: Vec<char>,
}

/// The mathematical value of a lexer state.
pub struct ParserView {
    pub state: ParseState,
    pub buffer: Seq<char>,
    pub depth: nat,
    pub index: Seq<char>,
    pub global: bool,
    pub argument: Seq<char>,
}

impl View for Parser {
    type V = ParserView;

    open spec fn view(&self) -> ParserView {
        ParserView {
            state: self.state,
            buffer: self.buffer@,
            depth: self.depth as nat,
            index: self.index@,
            global: self.global,
            argument: self.argument@,
        }
    }
}

/// A state with every buffer empty.
pub open spec fn fresh(state: ParseState) -> ParserView {
    ParserView {
        state,
        buffer: Seq::empty(),
        depth: 0,
        index: Seq::empty(),
        global: false,
        argument: Seq::empty(),
    }
}

impl Parser {
    /// A lexer at the start of a text.
    pub fn new() -> (r: Parser)
        ensures
            r@ == fresh(ParseState::Normal),
    {
        let r = Parser {
            state: ParseState::Normal,
            buffer: Vec::new(),
            depth: 0,
            index: Vec::new(),
            global: false,
            argument: Vec::new(),
        };
        assert(r@ =~= fresh(ParseState::Normal));
        r
    }

    /// Empties every buffer and keeps the state.
    pub fn reset_buffers(&mut self)
        ensures
            final(self)@ == fresh(old(self).state),
    {
        self.buffer.clear();
        self.depth = 0;
        self.index.clear();
        self.global = false;
        self.argument.clear();
        assert(self.buffer@ =~= Seq::<char>::empty());
        assert(self.index@ =~= Seq::<char>::empty());
        assert(self.argument@ =~= Seq::<char>::empty());
    }
}

/// Letters, digits and `_`: the characters of a name.
pub open spec fn is_name_char(c: char) -> bool {
    ('a' <= c && c <= 'z') || ('A' <= c && c <= 'Z') || ('0' <= c && c <= '9') || c == '_'
}

/// Space, tab and newline.
pub open spec fn is_separator(c: char) -> bool {
    c == ' ' || c == '\t' || c == '\n'
}

pub open spec fn is_digit(c: char) -> bool {
    '0' <= c && c <= '9'
}

/// The number written by a string of decimal digits.
pub open spec fn digits_value(ds: Seq<char>) -> nat
    decreases ds.len(),
{
    if ds.len() == 0 {
        0
    } else {
        digits_value(ds.drop_last()) * 10 + ((ds.last() as u32) - ('0' as u32)) as nat
    }
}

pub open spec fn word_def() -> Seq<char> {
    seq!['d', 'e', 'f']
}

pub open spec fn word_global_def() -> Seq<char> {
    seq!['*', 'd', 'e', 'f']
}

pub open spec fn word_get_input() -> Seq<char> {
    seq!['g', 'e', 't', '_', 'i', 'n', 'p', 'u', 't']
}

pub open spec fn word_print() -> Seq<char> {
    seq!['p', 'r', 'i', 'n', 't']
}

pub open spec fn word_error() -> Seq<char> {
    seq!['e', 'r', 'r', 'o', 'r']
}

/// The names of the built-in calls.
pub open spec fn is_builtin(w: Seq<char>) -> bool {
    w == word_get_input() || w == word_print() || w == word_error()
}

/// The token of the built-in call named `w` with argument `arg`.
pub open spec fn builtin_token(w: Seq<char>, arg: Seq<char>) -> TokenView {
    if w == word_get_input() {
        TokenView::GetInput(arg)
    } else if w == word_print() {
        TokenView::Print(arg)
    } else {
        TokenView::Error(arg)
    }
}

/// The tokens for the characters of `buffer` followed by `t`.
pub open spec fn flush_then(out: Seq<TokenView>, buffer: Seq<char>, t: TokenView) -> Seq<TokenView> {
    (out + char_tokens(buffer)).push(t)
}

/// The head opened by `{` after the buffer `b`: a call of the name in `b`, where a
/// leading `*` stays a literal character.
pub open spec fn open_scope(out: Seq<TokenView>, b: Seq<char>) -> Seq<TokenView> {
    if b.len() == 0 {
        out.push(TokenView::ScopeStart)
    } else if b[0] == '*' {
        if b.len() == 1 {
            out.push(char_token('*')).push(TokenView::ScopeStart)
        } else {
            out.push(char_token('*')).push(TokenView::FunctionCall(b.drop_first()))
        }
    } else {
        out.push(TokenView::FunctionCall(b))
    }
}

/// One character read in the normal state.
pub open spec fn normal_step(p: ParserView, out: Seq<TokenView>, c: char) -> (ParserView, Seq<TokenView>) {
    let b = p.buffer;
    if c == '{' {
        (fresh(ParseState::Normal), open_scope(out, b))
    } else if c == '}' {
        (fresh(ParseState::Normal), flush_then(out, b, TokenView::ScopeEnd))
    } else if c == ':' {
        (fresh(ParseState::Normal), flush_then(out, b, TokenView::Colon))
    } else if c == ';' {
        (fresh(ParseState::Normal), flush_then(out, b, TokenView::NewArm))
    } else if c == '^' {
        (ParserView { depth: 1, ..fresh(ParseState::PotRegisterCall) }, out + char_tokens(b))
    } else if c == '$' {
        (fresh(ParseState::InRegisterCallParseIndex), out + char_tokens(b))
    } else if is_separator(c) {
        if b == word_def() {
            (fresh(ParseState::ParsingDefFunctionName), out)
        } else if b == word_global_def() {
            (ParserView { global: true, ..fresh(ParseState::ParsingDefFunctionName) }, out)
        } else {
            (fresh(ParseState::Normal), emit(out + char_tokens(b), TokenView::GenericWhitespace))
        }
    } else if c == '/' {
        (fresh(ParseState::PotComment), out + char_tokens(b))
    } else if is_name_char(c) {
        (ParserView { buffer: b.push(c), ..p }, out)
    } else if c == '*' {
        (ParserView { buffer: seq!['*'], ..fresh(ParseState::Normal) }, out + char_tokens(b))
    } else if c == '\\' {
        (fresh(ParseState::Escape), out + char_tokens(b))
    } else if c == '(' && is_builtin(b) {
        (ParserView { buffer: b, ..fresh(ParseState::InBuiltinArgument) }, out)
    } else {
        (fresh(ParseState::Normal), flush_then(out, b, char_token(c)))
    }
}

/// One character read in any state: the next state and the tokens emitted so far, or
/// the error that stops lexing.
pub open spec fn step(p: ParserView, out: Seq<TokenView>, c: char) -> Result<(ParserView, Seq<TokenView>), ParseError> {
    match p.state {
        ParseState::Normal => Ok(normal_step(p, out, c)),
        ParseState::PotRegisterCall => if c == '^' {
            Ok((ParserView { depth: p.depth + 1, ..p }, out))
        } else if c == '$' {
            Ok((ParserView { state: ParseState::InRegisterCallParseIndex, ..p }, out))
        } else {
            Ok(normal_step(fresh(ParseState::Normal), out + char_tokens(repeat('^', p.depth)), c))
        },
        ParseState::InRegisterCallParseIndex => if is_digit(c) {
            Ok((ParserView { index: p.index.push(c), ..p }, out))
        } else if is_separator(c) {
            if p.index.len() == 0 {
                Err(ParseError::IndexMissingInRegisterCall)
            } else if digits_value(p.index) > usize::MAX {
                Err(ParseError::RegisterIndexTooLarge)
            } else {
                Ok((fresh(ParseState::Normal), out.push(TokenView::RegisterCall(p.depth, digits_value(p.index)))))
            }
        } else {
            Err(ParseError::InvalidRegisterIndexCharacter(c))
        },
        ParseState::ParsingDefFunctionName => if is_name_char(c) {
            Ok((ParserView { buffer: p.buffer.push(c), ..p }, out))
        } else if c == ' ' {
            Ok((ParserView { state: ParseState::ExpectScopeStart, ..p }, out))
        } else {
            Err(ParseError::InvalidFunctionNameCharacter(c))
        },
        ParseState::ExpectScopeStart => if c == '{' {
            if p.global {
                Ok((fresh(ParseState::Normal), out.push(TokenView::DefGlobalStart(p.buffer))))
            } else {
                Ok((fresh(ParseState::Normal), out.push(TokenView::DefStart(p.buffer))))
            }
        } else {
            Err(ParseError::ExpectedScopeStartAfterFunctionDefinition)
        },
        ParseState::PotComment => if c == '/' {
            Ok((fresh(ParseState::InComment), out))
        } else {
            Ok((fresh(ParseState::Normal), out.push(char_token('/')).push(char_token(c))))
        },
        ParseState::InComment => if c == '\n' {
            Ok((fresh(ParseState::Normal), out))
        } else {
            Ok((p, out))
        },
        ParseState::Escape => Ok((fresh(ParseState::Normal), out.push(char_token(c)))),
        ParseState::InBuiltinArgument => if c == ')' {
            Ok((fresh(ParseState::Normal), out.push(builtin_token(p.buffer, p.argument))))
        } else {
            Ok((ParserView { argument: p.argument.push(c), ..p }, out))
        },
    }
}

/// The lexer after reading all of `s` from the start state, or the first error.
pub open spec fn run(s: Seq<char>) -> Result<(ParserView, Seq<TokenView>), ParseError>
    decreases s.len(),
{
    if s.len() == 0 {
        Ok((fresh(ParseState::Normal), Seq::empty()))
    } else {
        match run(s.drop_last()) {
            Ok((p, out)) => step(p, out, s.last()),
            Err(e) => Err(e),
        }
    }
}

/// What the end of the text does in state `p`: what is pending becomes literal
/// characters where that is allowed.
pub open spec fn finish(p: ParserView, out: Seq<TokenView>) -> Result<Seq<TokenView>, ParseError> {
    match p.state {
        ParseState::Normal => Ok(out + char_tokens(p.buffer)),
        ParseState::PotComment => Ok(out.push(char_token('/'))),
        ParseState::PotRegisterCall => Ok(out + char_tokens(repeat('^', p.depth))),
        ParseState::ExpectScopeStart => Err(ParseError::ExpectedScopeStartAfterFunctionDefinition),
        _ => Err(ParseError::InputEndedUnexpectedly),
    }
}

/// How many tokens the pending state can still turn into at most, beyond one per
/// character still to come.
pub open spec fn pending(p: ParserView) -> nat {
    p.buffer.len() + p.depth + if p.state == ParseState::PotComment {
        1nat
    } else {
        0nat
    }
}

/// Every character of `ds` is a decimal digit.
pub open spec fn digits_only(ds: Seq<char>) -> bool {
    forall|k: int| 0 <= k < ds.len() ==> is_digit(#[trigger] ds[k])
}

/// The tokens of a program text, or why it has none.
pub open spec fn lex(s: Seq<char>) -> Result<Seq<TokenView>, ParseError> {
    match run(s) {
        Ok((p, out)) => finish(p, out),
        Err(e) => Err(e),
    }
}


/// A run of one or more spaces, tabs and newlines read in the normal state, after a
/// buffer that is not a definition keyword, adds the buffered characters and a single
/// whitespace token, and leaves the lexer in the normal state with empty buffers.
pub proof fn lemma_whitespace_run_collapses(pre: Seq<char>, ws: Seq<char>)
    requires
        ws.len() >= 1,
        forall|k: int| 0 <= k < ws.len() ==> is_separator(#[trigger] ws[k]),
        run(pre) matches Ok((p, out)) && p.state == ParseState::Normal && p.buffer != word_def()
            && p.buffer != word_global_def(),
    ensures
        run(pre + ws) == Ok::<(ParserView, Seq<TokenView>), ParseError>((
            fresh(ParseState::Normal),
            emit(run(pre)->Ok_0.1 + char_tokens(run(pre)->Ok_0.0.buffer), TokenView::GenericWhitespace),
        )),
    decreases ws.len(),
{
    let p = run(pre)->Ok_0.0;
    let out = run(pre)->Ok_0.1;
    let e = emit(out + char_tokens(p.buffer), TokenView::GenericWhitespace);
    assert((pre + ws).drop_last() =~= pre + ws.drop_last());
    assert((pre + ws).last() == ws.last());
    assert(is_separator(ws[ws.len() - 1]));
    if ws.len() == 1 {
        assert(pre + ws.drop_last() =~= pre);
    } else {
        lemma_whitespace_run_collapses(pre, ws.drop_last());
        assert(e.last() == TokenView::GenericWhitespace);
        assert(char_tokens(Seq::<char>::empty()) =~= Seq::<TokenView>::empty());
        assert(e + char_tokens(Seq::<char>::empty()) =~= e);
        assert(Seq::<char>::empty() != word_def());
        assert(Seq::<char>::empty() != word_global_def());
    }
}

} // verus!
