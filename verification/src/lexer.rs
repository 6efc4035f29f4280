//! The lexer: from bytes to the eight tokens of the language.

use vstd::prelude::*;

use crate::byte_stream::ByteStream;

verus! {

/// The tokens of the language.
#[derive(Clone, Copy, PartialEq, Eq, Debug, Structural)]
pub enum Token {
    /// `<`
    Left,
    /// `>`
    Right,
    /// `+`
    Add,
    /// `-`
    Sub,
    /// `,`
    Read,
    /// `.`
    Write,
    /// `[`
    Open,
    /// `]`
    Close,
}

/// The token that a byte stands for; every other byte is a comment.
pub open spec fn token_of(byte: u8) -> Option<Token> {
    if byte == 0x3c {
        Some(Token::Left)
    } else if byte == 0x3e {
        Some(Token::Right)
    } else if byte == 0x2b {
        Some(Token::Add)
    } else if byte == 0x2d {
        Some(Token::Sub)
    } else if byte == 0x2c {
        Some(Token::Read)
    } else if byte == 0x2e {
        Some(Token::Write)
    } else if byte == 0x5b {
        Some(Token::Open)
    } else if byte == 0x5d {
        Some(Token::Close)
    } else {
        None
    }
}

/// The tokens of a text, in order.
pub open spec fn lex(bytes: Seq<u8>) -> Seq<Token>
    decreases bytes.len(),
{
    if bytes.len() == 0 {
        Seq::empty()
    } else {
        (match token_of(bytes[0]) {
            Some(token) => seq![token],
            None => Seq::empty(),
        }) + lex(bytes.skip(1))
    }
}

/// Gives the token that a byte stands for.
pub fn classify(byte: u8) -> (token: Option<Token>)
    ensures
        token == token_of(byte),
{
    if byte == 0x3c {
        Some(Token::Left)
    } else if byte == 0x3e {
        Some(Token::Right)
    } else if byte == 0x2b {
        Some(Token::Add)
    } else if byte == 0x2d {
        Some(Token::Sub)
    } else if byte == 0x2c {
        Some(Token::Read)
    } else if byte == 0x2e {
        Some(Token::Write)
    } else if byte == 0x5b {
        Some(Token::Open)
    } else if byte == 0x5d {
        Some(Token::Close)
    } else {
        None
    }
}

/// The tokens of a text, and a cursor into them.
pub struct TokenStream {
    tokens: Box<Vec<Token>>,
    cursor: usize,
}

impl TokenStream {
    #[verifier::type_invariant]
    closed spec fn inv(&self) -> bool {
        self.cursor <= self.tokens@.len()
    }

    /// All the tokens of the stream.
    pub closed spec fn tokens(&self) -> Seq<Token> {
        self.tokens@
    }

    /// The number of tokens that were consumed.
    pub closed spec fn cursor(&self) -> int {
        self.cursor as int
    }

    /// Creates a stream over `tokens` with the cursor at the first of them.
    pub fn new(tokens: Box<Vec<Token>>) -> (stream: TokenStream)
        ensures
            stream.tokens() == tokens@,
            stream.cursor() == 0,
    {
        TokenStream { tokens, cursor: 0 }
    }

    /// Consumes the current token. At the end of the stream there is none to
    /// consume, and nothing changes.
    pub fn consume_token(&mut self)
        ensures
            final(self).tokens() == old(self).tokens(),
            final(self).cursor() == if old(self).cursor() < old(self).tokens().len() {
                old(self).cursor() + 1
            } else {
                old(self).cursor()
            },
    {
        proof {
            use_type_invariant(&*self);
        }
        if self.cursor < self.tokens.len() {
            self.cursor = self.cursor + 1;
        }
    }

    /// Returns the current token, or `None` at the end of the stream.
    pub fn peek_token(&self) -> (token: Option<Token>)
        ensures
            0 <= self.cursor() <= self.tokens().len(),
            token == if self.cursor() < self.tokens().len() {
                Some(self.tokens()[self.cursor()])
            } else {
                None
            },
    {
        proof {
            use_type_invariant(self);
        }
        if self.cursor < self.tokens.len() {
            Some(self.tokens[self.cursor])
        } else {
            None
        }
    }

    /// Returns the current token and consumes it; `None` at the end of the
    /// stream.
    pub fn next_token(&mut self) -> (token: Option<Token>)
        ensures
            final(self).tokens() == old(self).tokens(),
            token == if old(self).cursor() < old(self).tokens().len() {
                Some(old(self).tokens()[old(self).cursor()])
            } else {
                None
            },
            final(self).cursor() == if old(self).cursor() < old(self).tokens().len() {
                old(self).cursor() + 1
            } else {
                old(self).cursor()
            },
    {
        let token = self.peek_token();
        self.consume_token();
        token
    }

    /// Returns the token that was consumed last, or `None` if none was.
    pub fn prev_token(&self) -> (token: Option<Token>)
        ensures
            0 <= self.cursor() <= self.tokens().len(),
            token == if self.cursor() == 0 {
                None
            } else {
                Some(self.tokens()[self.cursor() - 1])
            },
    {
        proof {
            use_type_invariant(self);
        }
        if self.cursor == 0 {
            None
        } else {
            Some(self.tokens[self.cursor - 1])
        }
    }
}

/// Reads a byte stream to its end and gives its tokens.
pub fn tokenize(byte_stream: &mut ByteStream) -> (stream: TokenStream)
    ensures
        stream.tokens() == lex(old(byte_stream)@),
        stream.cursor() == 0,
        final(byte_stream)@.len() == 0,
{
    let mut tokens: Vec<Token> = Vec::new();
    let mut more: bool = true;
    while more
        invariant
            tokens@ + lex(byte_stream@) == lex(old(byte_stream)@),
            !more ==> byte_stream@.len() == 0,
        decreases byte_stream@.len(), if more { 1int } else { 0int },
    {
        let ghost rest = byte_stream@;
        match byte_stream.next_byte() {
            Some(byte) => {
                match classify(byte) {
                    Some(token) => {
                        proof {
                            assert(tokens@.push(token) + lex(rest.skip(1)) =~= tokens@ + lex(rest));
                        }
                        tokens.push(token);
                    },
                    None => {
                        proof {
                            assert(tokens@ + lex(rest.skip(1)) =~= tokens@ + lex(rest));
                        }
                    },
                }
            },
            None => {
                more = false;
            },
        }
    }
    proof {
        assert(tokens@ + lex(byte_stream@) =~= tokens@);
    }
    TokenStream::new(Box::new(tokens))
}

} // verus!
