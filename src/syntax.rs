use vstd::prelude::*;

verus! {

/// One of the eight instruction symbols of the language.
#[derive(Copy, Clone, Eq, PartialEq, Debug, Structural)]
pub enum Token {
    Left,
    Right,
    Add,
    Sub,
    Read,
    Write,
    LBracket,
    RBracket,
}

impl Token {
    /// The source byte that spells this symbol.
    pub fn symbol(self) -> (r: u8)
        ensures
            token_of(r) == Some(self),
    {
        match self {
            Token::Left => 60,
            Token::Right => 62,
            Token::Add => 43,
            Token::Sub => 45,
            Token::Read => 44,
            Token::Write => 46,
            Token::LBracket => 91,
            Token::RBracket => 93,
        }
    }
}

/// A token together with the byte offset it was found at.
#[derive(Copy, Clone, Eq, PartialEq, Debug, Structural)]
pub struct TokenSpan {
    pub token: Token,
    pub index: usize,
}

/// The symbol a source byte stands for, if any.
pub open spec fn token_of(b: u8) -> Option<Token> {
    if b == 60 {
        Some(Token::Left)
    } else if b == 62 {
        Some(Token::Right)
    } else if b == 43 {
        Some(Token::Add)
    } else if b == 45 {
        Some(Token::Sub)
    } else if b == 44 {
        Some(Token::Read)
    } else if b == 46 {
        Some(Token::Write)
    } else if b == 91 {
        Some(Token::LBracket)
    } else if b == 93 {
        Some(Token::RBracket)
    } else {
        None
    }
}

/// The tokens of `code` found at offsets `i` and later, in order.
pub open spec fn lex_from(code: Seq<u8>, i: int) -> Seq<TokenSpan>
    decreases code.len() - i,
{
    if i < 0 || i >= code.len() {
        Seq::empty()
    } else {
        match token_of(code[i]) {
            Some(t) => seq![TokenSpan { token: t, index: i as usize }] + lex_from(code, i + 1),
            None => lex_from(code, i + 1),
        }
    }
}

/// There are no more tokens than bytes, and each lies inside the buffer.
pub proof fn lemma_lex_len(code: Seq<u8>, i: int)
    requires
        0 <= i <= code.len(),
    ensures
        lex_from(code, i).len() <= code.len() - i,
        forall|k: int| 0 <= k < lex_from(code, i).len() ==> #[trigger] lex_from(code, i)[k].index < code.len(),
    decreases code.len() - i,
{
    if i < code.len() {
        lemma_lex_len(code, i + 1);
    }
}

/// All tokens of `code`, in order.
pub open spec fn lex(code: Seq<u8>) -> Seq<TokenSpan> {
    lex_from(code, 0)
}

fn token_at(b: u8) -> (r: Option<Token>)
    ensures
        r == token_of(b),
{
    match b {
        60 => Some(Token::Left),
        62 => Some(Token::Right),
        43 => Some(Token::Add),
        45 => Some(Token::Sub),
        44 => Some(Token::Read),
        46 => Some(Token::Write),
        91 => Some(Token::LBracket),
        93 => Some(Token::RBracket),
        _ => None,
    }
}

/// A restartable scan over the tokens of a byte buffer.
pub struct Tokens<'a> {
    code: &'a [u8],
    pos: usize,
}

impl<'a> Tokens<'a> {
    /// The bytes being scanned.
    pub closed spec fn code(&self) -> Seq<u8> {
        self.code@
    }

    /// The tokens not yet handed out.
    pub closed spec fn rest(&self) -> Seq<TokenSpan> {
        lex_from(self.code@, self.pos as int)
    }

    pub fn new(code: &'a [u8]) -> (r: Self)
        ensures
            r.code() == code@,
            r.rest() == lex(code@),
    {
        Self { code, pos: 0 }
    }

    /// Hands out the next token, or `None` once the buffer is used up.
    pub fn next(&mut self) -> (r: Option<TokenSpan>)
        ensures
            final(self).code() == old(self).code(),
            old(self).rest().len() == 0 ==> r is None && final(self).rest().len() == 0,
            old(self).rest().len() > 0 ==> r == Some(old(self).rest()[0]) && final(self).rest()
                == old(self).rest().drop_first(),
    {
        let mut i = self.pos;
        while i < self.code.len()
            invariant
                self.code == old(self).code,
                self.pos == old(self).pos,
                old(self).pos <= i,
                lex_from(self.code@, old(self).pos as int) == lex_from(self.code@, i as int),
            decreases self.code.len() - i,
        {
            match token_at(self.code[i]) {
                Some(t) => {
                    self.pos = i + 1;
                    assert(lex_from(self.code@, i as int) == seq![TokenSpan { token: t, index: i }]
                        + lex_from(self.code@, i + 1));
                    assert(seq![TokenSpan { token: t, index: i }] + lex_from(self.code@, i + 1)
                        =~= seq![TokenSpan { token: t, index: i }].add(self.rest()));
                    return Some(TokenSpan { token: t, index: i });
                },
                None => {
                    i = i + 1;
                },
            }
        }
        self.pos = i;
        None
    }
}

} // verus!
