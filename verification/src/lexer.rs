//! Splitting text into tokens: one token for each character that is not
//! whitespace, and an end marker behind them.

use vstd::prelude::*;

verus! {

/// A lexical unit.
#[derive(Debug)]
pub enum Token {
    Lambda,
    Dot,
    LParen,
    RParen,
    EOF,
    Atom(String),
}

/// The mathematical model of a [`Token`]: the name of an atom is a sequence
/// of characters.
pub enum Lexeme {
    Lambda,
    Dot,
    LParen,
    RParen,
    EOF,
    Atom(Seq<char>),
}

impl View for Token {
    type V = Lexeme;

    open spec fn view(&self) -> Lexeme {
        match *self {
            Token::Lambda => Lexeme::Lambda,
            Token::Dot => Lexeme::Dot,
            Token::LParen => Lexeme::LParen,
            Token::RParen => Lexeme::RParen,
            Token::EOF => Lexeme::EOF,
            Token::Atom(name) => Lexeme::Atom(name@),
        }
    }
}

impl PartialEq for Token {
    /// Two tokens are equal when they are of the same kind and, for atoms,
    /// carry the same name.
    fn eq(&self, other: &Self) -> (r: bool) {
        match self {
            Token::Lambda => match other {
                Token::Lambda => true,
                _ => false,
            },
            Token::Dot => match other {
                Token::Dot => true,
                _ => false,
            },
            Token::LParen => match other {
                Token::LParen => true,
                _ => false,
            },
            Token::RParen => match other {
                Token::RParen => true,
                _ => false,
            },
            Token::EOF => match other {
                Token::EOF => true,
                _ => false,
            },
            Token::Atom(name) => match other {
                Token::Atom(name2) => *name == *name2,
                _ => false,
            },
        }
    }
}

impl vstd::std_specs::cmp::PartialEqSpecImpl for Token {
    open spec fn obeys_eq_spec() -> bool {
        true
    }

    open spec fn eq_spec(&self, other: &Self) -> bool {
        self@ == other@
    }
}

/// Why a text could not be split into tokens.
#[derive(Debug, Clone, Copy, PartialEq, Eq, Structural)]
pub enum LexError {
    /// The character `found` is neither whitespace, nor a symbol of the
    /// language, nor alphabetic.  `position` counts the characters before
    /// it, whitespace left out.
    MalformedIdentifier { position: usize, found: char },
}

/// Whether `c` is whitespace: the answer of `char::is_whitespace`.
pub uninterp spec fn whitespace_char(c: char) -> bool;

/// Whether `c` is alphabetic: the answer of `char::is_alphabetic`.
pub uninterp spec fn alphabetic_char(c: char) -> bool;

/// `char::is_whitespace` of the standard library: whether the character has
/// the Unicode property `White_Space`.  The answer depends on the character
/// alone and is named, not spelled out.
pub assume_specification[ char::is_whitespace ](c: char) -> (r: bool)
    ensures
        r == whitespace_char(c),
;

/// `char::is_alphabetic` of the standard library: whether the character has
/// the Unicode property `Alphabetic`.  The answer depends on the character
/// alone and is named, not spelled out.
pub assume_specification[ char::is_alphabetic ](c: char) -> (r: bool)
    ensures
        r == alphabetic_char(c),
;

/// `String::from` on a character, of the standard library: the string that
/// holds this one character.
#[verifier::external_body]
fn string_of_char(c: char) -> (r: String)
    ensures
        r@ == seq![c],
{
    String::from(c)
}

/// The token that the character `c` stands for, where `alphabetic` says
/// whether `c` is alphabetic: a symbol of the language, or else an atom of
/// this one character if it is alphabetic.
pub open spec fn lexeme_of(c: char, alphabetic: bool) -> Option<Lexeme> {
    if c == 'λ' || c == '\\' {
        Some(Lexeme::Lambda)
    } else if c == '.' {
        Some(Lexeme::Dot)
    } else if c == '(' {
        Some(Lexeme::LParen)
    } else if c == ')' {
        Some(Lexeme::RParen)
    } else if c == '\0' {
        Some(Lexeme::EOF)
    } else if alphabetic {
        Some(Lexeme::Atom(seq![c]))
    } else {
        None
    }
}

/// Whether `c` stands for a token.
pub open spec fn recognized(c: char) -> bool {
    lexeme_of(c, alphabetic_char(c)) is Some
}

/// `at` is the place of the first character of `chars` that stands for no
/// token.
pub open spec fn first_unrecognized(chars: Seq<char>, at: int) -> bool {
    &&& 0 <= at < chars.len()
    &&& !recognized(chars[at])
    &&& forall|j: int| 0 <= j < at ==> recognized(#[trigger] chars[j])
}

/// The tokens of `chars`, a text without whitespace of which `before`
/// characters came earlier: one token for each character, in order, and the
/// end marker behind them; or the first character that stands for no token.
pub open spec fn scan(chars: Seq<char>, before: nat) -> Result<Seq<Lexeme>, LexError> {
    if forall|i: int| 0 <= i < chars.len() ==> recognized(#[trigger] chars[i]) {
        Ok(
            Seq::new(
                chars.len() + 1,
                |i: int|
                    if i < chars.len() {
                        lexeme_of(chars[i], alphabetic_char(chars[i]))->0
                    } else {
                        Lexeme::EOF
                    },
            ),
        )
    } else {
        let at = choose|at: int| first_unrecognized(chars, at);
        Err(LexError::MalformedIdentifier { position: (before + at) as usize, found: chars[at] })
    }
}

/// The text `text` without its whitespace.
pub open spec fn without_whitespace(text: Seq<char>) -> Seq<char> {
    text.filter(|c: char| !whitespace_char(c))
}

/// The models of the tokens in `tokens`.
pub open spec fn lexemes(tokens: Seq<Token>) -> Seq<Lexeme> {
    tokens.map_values(|t: Token| t@)
}

impl Token {
    /// The token that the character `c` stands for, if any, where
    /// `alphabetic` says whether `c` is alphabetic.
    pub fn of_char(c: char, alphabetic: bool) -> (r: Option<Token>)
        ensures
            match r {
                Some(token) => lexeme_of(c, alphabetic) == Some(token@),
                None => lexeme_of(c, alphabetic) is None,
            },
    {
        if c == 'λ' || c == '\\' {
            Some(Token::Lambda)
        } else if c == '.' {
            Some(Token::Dot)
        } else if c == '(' {
            Some(Token::LParen)
        } else if c == ')' {
            Some(Token::RParen)
        } else if c == '\0' {
            Some(Token::EOF)
        } else if alphabetic {
            Some(Token::Atom(string_of_char(c)))
        } else {
            None
        }
    }
}

/// A cursor over the characters of a text, whitespace left out.
pub struct Lexer {
    input: Vec<char>,
    ind: usize,
}

impl Lexer {
    /// The characters that have not been turned into tokens yet.
    pub closed spec fn remaining(&self) -> Seq<char> {
        if self.ind <= self.input.len() {
            self.input@.skip(self.ind as int)
        } else {
            Seq::empty()
        }
    }

    /// The number of characters that have been turned into tokens.
    pub closed spec fn position(&self) -> nat {
        self.ind as nat
    }

    /// A lexer at the start of `input`.  Whitespace is dropped here.
    pub fn new(input: String) -> (r: Lexer)
        ensures
            r.remaining() == without_whitespace(input@),
            r.position() == 0,
    {
        let mut kept: Vec<char> = Vec::new();
        for c in it: input.as_str().chars()
            invariant
                it.seq() == input@,
                kept@ == without_whitespace(input@.take(it.index() as int)),
        {
            proof {
                reveal(Seq::filter);
                let prefix = input@.take(it.index() + 1);
                assert(prefix.drop_last() =~= input@.take(it.index() as int));
                assert(prefix.last() == c);
            }
            if !c.is_whitespace() {
                kept.push(c);
            }
        }
        assert(input@.take(input@.len() as int) =~= input@);
        assert(kept@.skip(0) =~= kept@);
        Lexer { input: kept, ind: 0 }
    }

    /// Steps over one character.
    fn advance(&mut self)
        requires
            old(self).ind < old(self).input.len(),
        ensures
            final(self).input == old(self).input,
            final(self).ind == old(self).ind + 1,
    {
        self.ind += 1;
    }

    /// The token of the next character, which is stepped over; `None` where
    /// no character is left.  A character that stands for no token is
    /// reported and not stepped over.
    fn get_token(&mut self) -> (r: Result<Option<Token>, LexError>)
        ensures
            final(self).input == old(self).input,
            old(self).ind >= old(self).input.len() ==> r == Ok::<Option<Token>, LexError>(None)
                && final(self).ind == old(self).ind,
            old(self).ind < old(self).input.len() ==> ({
                let c = old(self).input[old(self).ind as int];
                match r {
                    Ok(Some(token)) => lexeme_of(c, alphabetic_char(c)) == Some(token@)
                        && final(self).ind == old(self).ind + 1,
                    Ok(None) => false,
                    Err(e) => !recognized(c) && e == (LexError::MalformedIdentifier {
                        position: old(self).ind,
                        found: c,
                    }) && final(self).ind == old(self).ind,
                }
            }),
    {
        if self.ind >= self.input.len() {
            return Ok(None);
        }
        let c = self.input[self.ind];
        match Token::of_char(c, c.is_alphabetic()) {
            Some(token) => {
                self.advance();
                Ok(Some(token))
            },
            None => Err(LexError::MalformedIdentifier { position: self.ind, found: c }),
        }
    }

    /// Turns the remaining characters into tokens, one for each character,
    /// and puts the end marker behind them.  At a character that stands for
    /// no token the lexer stops and reports it.
    pub fn lex(&mut self) -> (r: Result<Vec<Token>, LexError>)
        ensures
            match r {
                Ok(tokens) => scan(old(self).remaining(), old(self).position()) == Ok::<
                    Seq<Lexeme>,
                    LexError,
                >(lexemes(tokens@)) && final(self).remaining().len() == 0
                    && final(self).position() == old(self).position() + old(
                    self,
                ).remaining().len(),
                Err(e) => scan(old(self).remaining(), old(self).position()) == Err::<
                    Seq<Lexeme>,
                    LexError,
                >(e) && first_unrecognized(
                    old(self).remaining(),
                    old(self).remaining().len() - final(self).remaining().len(),
                ) && final(self).position() == old(self).position() + old(
                    self,
                ).remaining().len() - final(self).remaining().len(),
            },
    {
        let ghost start = self.ind as int;
        let ghost chars = self.remaining();
        let mut v: Vec<Token> = Vec::new();
        loop
            invariant
                self.input == old(self).input,
                start == old(self).ind,
                chars == old(self).remaining(),
                start <= self.ind,
                self.ind <= self.input.len() || self.ind == start,
                v@.len() == self.ind - start,
                forall|k: int|
                    0 <= k < v@.len() ==> lexeme_of(
                        #[trigger] chars[k],
                        alphabetic_char(chars[k]),
                    ) == Some(v@[k]@),
            decreases self.input.len() - self.ind,
        {
            match self.get_token() {
                Ok(Some(token)) => {
                    v.push(token);
                },
                Ok(None) => {
                    v.push(Token::EOF);
                    proof {
                        assert(v@.len() == chars.len() + 1);
                        assert forall|i: int| 0 <= i < chars.len() implies recognized(
                            #[trigger] chars[i],
                        ) by {
                            assert(lexeme_of(chars[i], alphabetic_char(chars[i])) == Some(v@[i]@));
                        }
                        assert(scan(chars, start as nat)->Ok_0 =~= lexemes(v@));
                    }
                    return Ok(v);
                },
                Err(e) => {
                    proof {
                        let here = self.ind - start;
                        assert(chars[here] == self.input[self.ind as int]);
                        assert forall|j: int| 0 <= j < here implies recognized(
                            #[trigger] chars[j],
                        ) by {
                            assert(lexeme_of(chars[j], alphabetic_char(chars[j])) == Some(v@[j]@));
                        }
                        assert(first_unrecognized(chars, here));
                        let at = choose|at: int| first_unrecognized(chars, at);
                        assert(at == here) by {
                            if at < here {
                                assert(recognized(chars[at]));
                            }
                            if here < at {
                                assert(recognized(chars[here]));
                            }
                        }
                        assert(self.remaining().len() == chars.len() - here);
                    }
                    return Err(e);
                },
            }
        }
    }
}

} // verus!
