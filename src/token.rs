use vstd::prelude::*;

verus! {

broadcast use vstd::std_specs::vec::group_vec_axioms;

/// The bracket pair around a group of tokens.
#[derive(PartialEq, Eq, Structural, Clone, Copy, Debug)]
pub enum Delimiter {
    Parenthesis,
    Brace,
    Bracket,
    /// An invisible delimiter, as left behind by macro expansion.
    Invisible,
}

/// One lexical token as handed over by a tokenizer.
#[derive(Debug, PartialEq, Eq)]
pub enum Token {
    /// A single punctuation character; `joint` is true when the next
    /// punctuation character follows it with no space in between.
    Punct { ch: char, joint: bool },
    /// An identifier, by its text.
    Ident(String),
    /// Any other token (literals, lifetimes, ...), by its text.
    Literal(String),
    /// A delimited sub-stream.
    Group(Delimiter, Vec<Token>),
}

/// The mathematical value of a [`Token`].
pub enum TokenView {
    Punct { ch: char, joint: bool },
    Ident(Seq<char>),
    Literal(Seq<char>),
    Group(Delimiter, Seq<TokenView>),
}

pub open spec fn token_view(t: Token) -> TokenView
    decreases t,
{
    match t {
        Token::Punct { ch, joint } => TokenView::Punct { ch, joint },
        Token::Ident(s) => TokenView::Ident(s@),
        Token::Literal(s) => TokenView::Literal(s@),
        Token::Group(d, v) => TokenView::Group(d, Seq::new(v@.len(), |j: int| if 0 <= j < v@.len() { token_view(v@[j]) } else { TokenView::Literal(Seq::empty()) })),
    }
}

/// The mathematical value of a token stream.
pub open spec fn stream_view(v: Seq<Token>) -> Seq<TokenView> {
    Seq::new(v.len(), |j: int| token_view(v[j]))
}

/// The view of a group is the group of the views.
pub proof fn lemma_group_view(d: Delimiter, v: Vec<Token>)
    ensures
        token_view(Token::Group(d, v)) == TokenView::Group(d, stream_view(v@)),
{
    match token_view(Token::Group(d, v)) {
        TokenView::Group(_, s) => {
            assert(s =~= stream_view(v@));
        },
        _ => {},
    }
}

impl Token {
    /// A structurally equal copy of this token, nested groups included.
    pub fn deep_copy(&self) -> (r: Token)
        ensures
            token_view(r) == token_view(*self),
        decreases self,
    {
        match self {
            Token::Punct { ch, joint } => Token::Punct { ch: *ch, joint: *joint },
            Token::Ident(s) => Token::Ident(s.clone()),
            Token::Literal(s) => Token::Literal(s.clone()),
            Token::Group(d, v) => {
                let mut out: Vec<Token> = Vec::new();
                let mut i: usize = 0;
                while i < v.len()
                    invariant
                        *self == Token::Group(*d, *v),
                        i <= v.len(),
                        out@.len() == i,
                        forall|j: int| 0 <= j < i ==> token_view(#[trigger] out@[j]) == token_view(v@[j]),
                    decreases v.len() - i,
                {
                    proof {
                        assert(decreases_to!(*self => self->Group_1));
                        assert(decreases_to!(*v => v@));
                        assert(decreases_to!(v@ => v@[i as int]));
                    }
                    let c = v[i].deep_copy();
                    out.push(c);
                    i = i + 1;
                }
                let r = Token::Group(*d, out);
                assert(stream_view(out@) =~= stream_view(v@));
                proof {
                    lemma_group_view(*d, out);
                    lemma_group_view(*d, *v);
                }
                r
            },
        }
    }
}

} // verus!
