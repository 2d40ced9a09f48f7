use vstd::prelude::*;

use crate::token::{Delimiter, Token};

verus! {

broadcast use vstd::std_specs::vec::group_vec_axioms;

pub open spec fn open_of(d: Delimiter) -> Seq<char> {
    match d {
        Delimiter::Parenthesis => seq!['('],
        Delimiter::Brace => seq!['{'],
        Delimiter::Bracket => seq!['['],
        Delimiter::Invisible => Seq::empty(),
    }
}

pub open spec fn close_of(d: Delimiter) -> Seq<char> {
    match d {
        Delimiter::Parenthesis => seq![')'],
        Delimiter::Brace => seq!['}'],
        Delimiter::Bracket => seq![']'],
        Delimiter::Invisible => Seq::empty(),
    }
}

/// The source text of a token: each token is followed by a space, but for a
/// punctuation character joined to the next one.
pub open spec fn render_token(t: Token) -> Seq<char>
    decreases t, 0int,
{
    match t {
        Token::Ident(s) => s@ + seq![' '],
        Token::Punct(c, joint) => if joint {
            seq![c]
        } else {
            seq![c, ' ']
        },
        Token::Literal(s) => s@ + seq![' '],
        Token::Group(d, v) => open_of(d) + render_prefix(v, v@.len() as int) + close_of(d) + seq![' '],
    }
}

/// The source text of the first `n` tokens of `v`.
pub open spec fn render_prefix(v: Vec<Token>, n: int) -> Seq<char>
    decreases v, n,
{
    if n <= 0 || n > v@.len() {
        Seq::empty()
    } else {
        render_prefix(v, n - 1) + render_token(v[n - 1])
    }
}

/// The source text of a sequence of tokens.
pub open spec fn render_seq(s: Seq<Token>) -> Seq<char>
    decreases s.len(),
{
    if s.len() == 0 {
        Seq::empty()
    } else {
        render_seq(s.drop_last()) + render_token(s.last())
    }
}

fn push_text(out: &mut String, s: &str)
    ensures
        final(out)@ == old(out)@ + s@,
{
    let n = s.unicode_len();
    let mut i: usize = 0;
    while i < n
        invariant
            n == s@.len(),
            i <= n,
            out@ == old(out)@ + s@.subrange(0, i as int),
        decreases n - i,
    {
        out.push(s.get_char(i));
        proof {
            assert(old(out)@ + s@.subrange(0, i + 1) =~= (old(out)@ + s@.subrange(0, i as int)).push(s@[i as int]));
        }
        i += 1;
    }
    assert(s@.subrange(0, n as int) =~= s@);
}

fn render_token_into(out: &mut String, t: &Token)
    ensures
        final(out)@ == old(out)@ + render_token(*t),
    decreases *t,
{
    match t {
        Token::Ident(s) => {
            push_text(out, s.as_str());
            out.push(' ');
        },
        Token::Punct(c, joint) => {
            out.push(*c);
            if !*joint {
                out.push(' ');
            }
        },
        Token::Literal(s) => {
            push_text(out, s.as_str());
            out.push(' ');
        },
        Token::Group(d, v) => {
            match d {
                Delimiter::Parenthesis => out.push('('),
                Delimiter::Brace => out.push('{'),
                Delimiter::Bracket => out.push('['),
                Delimiter::Invisible => {},
            }
            let ghost mid = out@;
            let mut i: usize = 0;
            while i < v.len()
                invariant
                    i <= v@.len(),
                    *t == Token::Group(*d, *v),
                    out@ == mid + render_prefix(*v, i as int),
                decreases v@.len() - i,
            {
                proof {
                    assert(decreases_to!(*t => (*t)->Group_1));
                    assert(decreases_to!(*v => v[i as int]));
                }
                render_token_into(out, &v[i]);
                i += 1;
            }
            match d {
                Delimiter::Parenthesis => out.push(')'),
                Delimiter::Brace => out.push('}'),
                Delimiter::Bracket => out.push(']'),
                Delimiter::Invisible => {},
            }
            out.push(' ');
        },
    }
    proof {
        assert(out@ =~= old(out)@ + render_token(*t));
    }
}

/// The source text of a run of tokens.
pub fn render(tokens: &[Token]) -> (r: String)
    ensures
        r@ == render_seq(tokens@),
{
    let mut out = String::new();
    let mut i: usize = 0;
    while i < tokens.len()
        invariant
            i <= tokens@.len(),
            out@ == render_seq(tokens@.subrange(0, i as int)),
        decreases tokens@.len() - i,
    {
        render_token_into(&mut out, &tokens[i]);
        proof {
            assert(tokens@.subrange(0, i + 1).drop_last() =~= tokens@.subrange(0, i as int));
        }
        i += 1;
    }
    assert(tokens@.subrange(0, i as int) =~= tokens@);
    out
}

} // verus!
