use vstd::prelude::*;

use crate::linked_tokens::{char_token, char_tokens, emit, render, render_token, repeat, TokenView};
use crate::parser::{
    builtin_token, fresh, is_builtin, is_name_char, lex, normal_step, run, step, word_def,
    word_global_def, ParseState, ParserView,
};

verus! {

/// A text without escapes, register references, comments, tabs or newlines, whose
/// separators are single spaces.
pub open spec fn plain_text(s: Seq<char>) -> bool {
    &&& forall|k: int| 0 <= k < s.len() ==> #[trigger] s[k] != '\\' && s[k] != '$' && s[k] != '\t' && s[k] != '\n'
    &&& forall|k: int| 0 <= k < s.len() - 1 ==> !(#[trigger] s[k] == '/' && s[k + 1] == '/')
    &&& forall|k: int| 0 <= k < s.len() - 1 ==> !(#[trigger] s[k] == ' ' && s[k + 1] == ' ')
}

/// The text that the lexer has read but not yet turned into tokens.
pub open spec fn pending_text(p: ParserView) -> Seq<char> {
    match p.state {
        ParseState::Normal => p.buffer,
        ParseState::PotRegisterCall => repeat('^', p.depth),
        ParseState::PotComment => seq!['/'],
        ParseState::ParsingDefFunctionName => def_keyword(p.global) + p.buffer,
        ParseState::ExpectScopeStart => def_keyword(p.global) + p.buffer.push(' '),
        ParseState::InBuiltinArgument => p.buffer.push('(') + p.argument,
        _ => Seq::empty(),
    }
}

/// `def ` or `*def `.
pub open spec fn def_keyword(global: bool) -> Seq<char> {
    if global {
        seq!['*', 'd', 'e', 'f', ' ']
    } else {
        seq!['d', 'e', 'f', ' ']
    }
}

/// What holds of the lexer after reading the plain text `t`.
pub open spec fn reads_back(t: Seq<char>, p: ParserView, out: Seq<TokenView>) -> bool {
    &&& render(out) + pending_text(p) == t
    &&& p.state != ParseState::InComment
    &&& p.state != ParseState::Escape
    &&& p.state != ParseState::InRegisterCallParseIndex
    &&& p.state == ParseState::PotRegisterCall ==> p.depth >= 1
    &&& p.state == ParseState::InBuiltinArgument ==> is_builtin(p.buffer)
    &&& (out.len() > 0 && out.last() == TokenView::GenericWhitespace && pending_text(p).len() == 0)
        ==> (t.len() > 0 && t.last() == ' ')
}

proof fn lemma_render_push(out: Seq<TokenView>, t: TokenView)
    ensures
        render(out.push(t)) == render(out) + render_token(t),
{
    assert(out.push(t).drop_last() =~= out);
}

proof fn lemma_render_chars(out: Seq<TokenView>, cs: Seq<char>)
    ensures
        render(out + char_tokens(cs)) == render(out) + cs,
    decreases cs.len(),
{
    if cs.len() == 0 {
        assert(out + char_tokens(cs) =~= out);
        assert(render(out) + cs =~= render(out));
    } else {
        lemma_render_chars(out, cs.drop_last());
        assert(out + char_tokens(cs) =~= (out + char_tokens(cs.drop_last())).push(char_token(cs.last())));
        lemma_render_push(out + char_tokens(cs.drop_last()), char_token(cs.last()));
        assert(render(out) + cs.drop_last() + seq![cs.last()] =~= render(out) + cs);
    }
}

proof fn lemma_char_tokens_last(cs: Seq<char>)
    requires
        cs.len() > 0,
    ensures
        char_tokens(cs).len() > 0,
        char_tokens(cs).last() == char_token(cs.last()),
{
}

proof fn lemma_repeat_nonempty(c: char, n: nat)
    requires
        n >= 1,
    ensures
        repeat(c, n).len() > 0,
        repeat(c, n).last() == c,
{
}

/// One character read in the normal state keeps the text readable back.
proof fn lemma_normal_reads_back(t: Seq<char>, p: ParserView, out: Seq<TokenView>, c: char)
    requires
        p.state == ParseState::Normal,
        render(out) + p.buffer == t,
        (out.len() > 0 && out.last() == TokenView::GenericWhitespace && p.buffer.len() == 0) ==> (t.len() > 0 && t.last() == ' '),
        c != '\\' && c != '$' && c != '\t' && c != '\n',
        !(t.len() > 0 && t.last() == ' ' && c == ' '),
    ensures
        reads_back(t.push(c), normal_step(p, out, c).0, normal_step(p, out, c).1),
{
    let b = p.buffer;
    let (q, out_q) = normal_step(p, out, c);
    let tc = t.push(c);
    lemma_render_chars(out, b);
    if c == '{' {
        if b.len() == 0 {
            lemma_render_push(out, TokenView::ScopeStart);
        } else if b[0] == '*' {
            lemma_render_push(out, char_token('*'));
            if b.len() == 1 {
                lemma_render_push(out.push(char_token('*')), TokenView::ScopeStart);
                assert(b =~= seq!['*']);
            } else {
                lemma_render_push(out.push(char_token('*')), TokenView::FunctionCall(b.drop_first()));
                assert(seq!['*'] + b.drop_first() =~= b);
            }
        } else {
            lemma_render_push(out, TokenView::FunctionCall(b));
        }
        assert(render(out_q) =~= tc);
    } else if c == '}' || c == ':' || c == ';' {
        let tok = if c == '}' {
            TokenView::ScopeEnd
        } else if c == ':' {
            TokenView::Colon
        } else {
            TokenView::NewArm
        };
        lemma_render_push(out + char_tokens(b), tok);
        assert(render(out_q) =~= tc);
    } else if c == '^' {
        assert(repeat('^', 0) == Seq::<char>::empty());
        assert(repeat('^', 1) == repeat('^', 0).push('^'));
        assert(repeat('^', 1) =~= seq!['^']);
        assert(render(out_q) + pending_text(q) =~= tc);
    } else if c == ' ' {
        if b == word_def() || b == word_global_def() {
            assert(render(out_q) + pending_text(q) =~= tc);
        } else {
            let o1 = out + char_tokens(b);
            if b.len() > 0 {
                lemma_char_tokens_last(b);
                assert(o1.last() == char_token(b.last()));
            }
            assert(emit(o1, TokenView::GenericWhitespace) == o1.push(TokenView::GenericWhitespace));
            lemma_render_push(o1, TokenView::GenericWhitespace);
            assert(render(out_q) + pending_text(q) =~= tc);
        }
    } else if c == '/' {
        assert(render(out_q) + pending_text(q) =~= tc);
    } else if is_name_char(c) {
        assert(render(out_q) + pending_text(q) =~= tc);
    } else if c == '*' {
        assert(render(out_q) + pending_text(q) =~= tc);
    } else if c == '(' && is_builtin(b) {
        assert(render(out_q) + pending_text(q) =~= tc);
    } else {
        lemma_render_push(out + char_tokens(b), char_token(c));
        assert(render(out_q) + pending_text(q) =~= tc);
    }
}

/// One character of a plain text keeps the text readable back.
proof fn lemma_step_reads_back(t: Seq<char>, p: ParserView, out: Seq<TokenView>, c: char)
    requires
        reads_back(t, p, out),
        c != '\\' && c != '$' && c != '\t' && c != '\n',
        !(t.len() > 0 && t.last() == ' ' && c == ' '),
        !(t.len() > 0 && t.last() == '/' && c == '/'),
    ensures
        step(p, out, c) matches Ok((q, out_q)) ==> reads_back(t.push(c), q, out_q),
{
    let tc = t.push(c);
    match p.state {
        ParseState::Normal => {
            lemma_normal_reads_back(t, p, out, c);
        },
        ParseState::PotRegisterCall => {
            if c == '^' {
                let q = ParserView { depth: p.depth + 1, ..p };
                assert(repeat('^', p.depth + 1) == repeat('^', p.depth).push('^'));
                assert(render(out) + pending_text(q) =~= tc);
            } else if c != '$' {
                let o1 = out + char_tokens(repeat('^', p.depth));
                lemma_render_chars(out, repeat('^', p.depth));
                lemma_repeat_nonempty('^', p.depth);
                lemma_char_tokens_last(repeat('^', p.depth));
                assert(o1.last() == char_token('^'));
                assert(render(o1) + fresh(ParseState::Normal).buffer =~= t);
                assert(t.last() == '^');
                lemma_normal_reads_back(t, fresh(ParseState::Normal), o1, c);
            }
        },
        ParseState::ParsingDefFunctionName => {
            if is_name_char(c) {
                let q = ParserView { buffer: p.buffer.push(c), ..p };
                assert(render(out) + pending_text(q) =~= tc);
            } else if c == ' ' {
                let q = ParserView { state: ParseState::ExpectScopeStart, ..p };
                assert(render(out) + pending_text(q) =~= tc);
            }
        },
        ParseState::ExpectScopeStart => {
            if c == '{' {
                let tok = if p.global {
                    TokenView::DefGlobalStart(p.buffer)
                } else {
                    TokenView::DefStart(p.buffer)
                };
                lemma_render_push(out, tok);
                assert(render(out.push(tok)) + pending_text(fresh(ParseState::Normal)) =~= tc);
            }
        },
        ParseState::PotComment => {
            if c != '/' {
                lemma_render_push(out, char_token('/'));
                lemma_render_push(out.push(char_token('/')), char_token(c));
                let o2 = out.push(char_token('/')).push(char_token(c));
                assert(render(o2) + pending_text(fresh(ParseState::Normal)) =~= tc);
            } else {
                assert(t.last() == '/');
            }
        },
        ParseState::InBuiltinArgument => {
            if c == ')' {
                let tok = builtin_token(p.buffer, p.argument);
                lemma_render_push(out, tok);
                assert(render(out.push(tok)) + pending_text(fresh(ParseState::Normal)) =~= tc);
            } else {
                let q = ParserView { argument: p.argument.push(c), ..p };
                assert(render(out) + pending_text(q) =~= tc);
            }
        },
        _ => {},
    }
}

/// Every prefix of a plain text reads back.
proof fn lemma_run_reads_back(s: Seq<char>, i: int)
    requires
        plain_text(s),
        0 <= i <= s.len(),
    ensures
        run(s.take(i)) matches Ok((p, out)) ==> reads_back(s.take(i), p, out),
    decreases i,
{
    if i == 0 {
        assert(s.take(0) =~= Seq::<char>::empty());
        assert(render(Seq::<TokenView>::empty()) + pending_text(fresh(ParseState::Normal)) =~= Seq::<char>::empty());
    } else {
        lemma_run_reads_back(s, i - 1);
        let t = s.take(i - 1);
        assert(s.take(i).drop_last() =~= t);
        assert(s.take(i).last() == s[i - 1]);
        assert(t.push(s[i - 1]) =~= s.take(i));
        if i >= 2 {
            assert(t.last() == s[i - 2]);
        }
        match run(t) {
            Ok((p, out)) => {
                lemma_step_reads_back(t, p, out, s[i - 1]);
            },
            Err(_) => {},
        }
    }
}

/// Lexing a text without comments, whose separators are single spaces, and rendering
/// its tokens gives the text back, provided it holds no escape and no register
/// reference (which lose their `\` and the space that ends them).
pub proof fn lemma_round_trip(s: Seq<char>)
    requires
        plain_text(s),
    ensures
        lex(s) matches Ok(ts) ==> render(ts) == s,
{
    lemma_run_reads_back(s, s.len() as int);
    assert(s.take(s.len() as int) =~= s);
    match run(s) {
        Ok((p, out)) => {
            match p.state {
                ParseState::Normal => {
                    lemma_render_chars(out, p.buffer);
                },
                ParseState::PotComment => {
                    lemma_render_push(out, char_token('/'));
                },
                ParseState::PotRegisterCall => {
                    lemma_render_chars(out, repeat('^', p.depth));
                },
                _ => {},
            }
        },
        Err(_) => {},
    }
}

} // verus!
