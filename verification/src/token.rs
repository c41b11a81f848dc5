//! Tokens, their rendering, and the tokenizers that turn text into tokens.

use crate::error::Error;
use crate::text::{char_to_string, chars_of, lowercase, to_lowercase};
use vstd::prelude::*;
use vstd::string::StringExecFns;

verus! {

/// The mathematical value of a [`Token`]: the variant and its payload, with a
/// string payload taken as its sequence of characters.
pub enum Symbol {
    Start,
    Char(char),
    PositionalChar { c: char, i: usize },
    Str(Seq<char>),
    End,
}

impl Symbol {
    /// The text that a token with this value contributes to generated
    /// output. The sentinels contribute nothing, and a positioned character
    /// contributes the character alone.
    pub open spec fn rendering(self) -> Seq<char> {
        match self {
            Symbol::Start => Seq::empty(),
            Symbol::Char(c) => seq![c],
            Symbol::PositionalChar { c, i } => seq![c],
            Symbol::Str(s) => s,
            Symbol::End => Seq::empty(),
        }
    }
}

/// The values of a sequence of tokens.
pub open spec fn symbols_of(tokens: Seq<Token>) -> Seq<Symbol> {
    tokens.map_values(|t: Token| t@)
}

/// Whether `tokens` is `Start`, then one `Char` for each character of
/// `chars` in order, then `End`.
pub open spec fn spells_chars(tokens: Seq<Token>, chars: Seq<char>) -> bool {
    &&& tokens.len() == chars.len() + 2
    &&& tokens[0]@ == Symbol::Start
    &&& tokens[tokens.len() - 1]@ == Symbol::End
    &&& forall|j: int|
        1 <= j <= chars.len() ==> (#[trigger] tokens[j])@ == Symbol::Char(chars[j - 1])
}

/// Whether `tokens` is `Start`, then one `PositionalChar` for each character
/// of `chars` in order, each with its index, then `End`.
pub open spec fn spells_positions(tokens: Seq<Token>, chars: Seq<char>) -> bool {
    &&& tokens.len() == chars.len() + 2
    &&& tokens[0]@ == Symbol::Start
    &&& tokens[tokens.len() - 1]@ == Symbol::End
    &&& forall|j: int|
        1 <= j <= chars.len() ==> (#[trigger] tokens[j])@ == (Symbol::PositionalChar {
            c: chars[j - 1],
            i: (j - 1) as usize,
        })
}

/// One unit of the learned vocabulary.
#[derive(Debug, Hash)]
pub enum Token {
    Start,
    Char(char),
    PositionalChar { c: char, i: usize },
    Str(String),
    End,
}

impl View for Token {
    type V = Symbol;

    open spec fn view(&self) -> Symbol {
        match *self {
            Token::Start => Symbol::Start,
            Token::Char(c) => Symbol::Char(c),
            Token::PositionalChar { c, i } => Symbol::PositionalChar { c, i },
            Token::Str(s) => Symbol::Str(s@),
            Token::End => Symbol::End,
        }
    }
}

impl Clone for Token {
    fn clone(&self) -> (r: Token)
        ensures
            r == *self,
    {
        match self {
            Token::Start => Token::Start,
            Token::Char(c) => Token::Char(*c),
            Token::PositionalChar { c, i } => Token::PositionalChar { c: *c, i: *i },
            Token::Str(s) => Token::Str(s.clone()),
            Token::End => Token::End,
        }
    }
}

impl PartialEq for Token {
    fn eq(&self, other: &Token) -> (r: bool) {
        match self {
            Token::Start => match other {
                Token::Start => true,
                _ => false,
            },
            Token::Char(a) => match other {
                Token::Char(b) => *a == *b,
                _ => false,
            },
            Token::PositionalChar { c: a, i: m } => match other {
                Token::PositionalChar { c: b, i: n } => *a == *b && *m == *n,
                _ => false,
            },
            Token::Str(a) => match other {
                Token::Str(b) => a.eq(b),
                _ => false,
            },
            Token::End => match other {
                Token::End => true,
                _ => false,
            },
        }
    }
}

impl vstd::std_specs::cmp::PartialEqSpecImpl for Token {
    open spec fn obeys_eq_spec() -> bool {
        true
    }

    open spec fn eq_spec(&self, other: &Token) -> bool {
        self@ == other@
    }
}

impl Eq for Token {

}

impl Token {
    /// The token of one character.
    fn character(c: char) -> (token: Token)
        ensures
            token == Token::Char(c),
    {
        Token::Char(c)
    }

    /// The token of one character at a position.
    fn positioned(c: char, i: usize) -> (token: Token)
        ensures
            token == (Token::PositionalChar { c, i }),
    {
        Token::PositionalChar { c, i }
    }

    /// The text of this token in generated output.
    pub fn to_string(&self) -> (text: String)
        ensures
            text@ == self@.rendering(),
    {
        match self {
            Token::Start => String::new(),
            Token::Char(c) => char_to_string(*c),
            Token::PositionalChar { c, i } => char_to_string(*c),
            Token::Str(s) => s.clone(),
            Token::End => String::new(),
        }
    }
}

/// Turns raw text into tokens, bracketed by the two sentinels.
pub trait Tokenizer {
    fn tokenize(&self, data: &str) -> (tokens: Vec<Token>)
        ensures
            tokens@.len() >= 2,
            tokens@.first()@ == Symbol::Start,
            tokens@.last()@ == Symbol::End,
    ;
}

/// Tokenizes by character, after lowering the text.
pub struct CharTokenizer;

/// Tokenizes by character and position, after lowering the text.
pub struct PositionalCharTokenizer;

/// One `Char` token for each character of `text`, between `Start` and `End`.
pub fn char_tokens(text: &str) -> (tokens: Vec<Token>)
    ensures
        spells_chars(tokens@, text@),
{
    let chars = chars_of(text);
    let mut tokens: Vec<Token> = Vec::new();
    tokens.push(Token::Start);
    let mut k: usize = 0;
    while k < chars.len()
        invariant
            k <= chars.len(),
            tokens@.len() == k + 1,
            tokens@[0]@ == Symbol::Start,
            forall|j: int| 1 <= j <= k ==> (#[trigger] tokens@[j])@ == Symbol::Char(chars@[j - 1]),
        decreases chars.len() - k,
    {
        tokens.push(Token::character(chars[k]));
        k += 1;
    }
    tokens.push(Token::End);
    tokens
}

/// One `PositionalChar` token for each character of `text`, carrying the
/// character's index, between `Start` and `End`.
pub fn positional_tokens(text: &str) -> (tokens: Vec<Token>)
    ensures
        spells_positions(tokens@, text@),
{
    let chars = chars_of(text);
    let mut tokens: Vec<Token> = Vec::new();
    tokens.push(Token::Start);
    let mut k: usize = 0;
    while k < chars.len()
        invariant
            k <= chars.len(),
            tokens@.len() == k + 1,
            tokens@[0]@ == Symbol::Start,
            forall|j: int|
                1 <= j <= k ==> (#[trigger] tokens@[j])@ == (Symbol::PositionalChar {
                    c: chars@[j - 1],
                    i: (j - 1) as usize,
                }),
        decreases chars.len() - k,
    {
        tokens.push(Token::positioned(chars[k], k));
        k += 1;
    }
    tokens.push(Token::End);
    tokens
}

impl Tokenizer for CharTokenizer {
    fn tokenize(&self, data: &str) -> (tokens: Vec<Token>)
        ensures
            spells_chars(tokens@, lowercase(data@)),
    {
        let lowered = to_lowercase(data);
        char_tokens(lowered.as_str())
    }
}

impl Tokenizer for PositionalCharTokenizer {
    fn tokenize(&self, data: &str) -> (tokens: Vec<Token>)
        ensures
            spells_positions(tokens@, lowercase(data@)),
    {
        let lowered = to_lowercase(data);
        positional_tokens(lowered.as_str())
    }
}

/// The value that a literal of a command denotes: the two sentinel
/// literals stand for the sentinels, a single character for itself, and
/// nothing else denotes a token.
pub open spec fn literal_symbol(text: Seq<char>) -> Option<Symbol> {
    if text == "__START__"@ {
        Some(Symbol::Start)
    } else if text == "__END__"@ {
        Some(Symbol::End)
    } else if text.len() == 1 {
        Some(Symbol::Char(text[0]))
    } else {
        None
    }
}

/// Reads a literal of a command as a token. A literal that denotes none is
/// refused with the literal itself and the reason.
pub fn as_char_token(str: &str) -> (r: Result<Token, Error>)
    ensures
        match literal_symbol(str@) {
            Some(symbol) => r matches Ok(token) && token@ == symbol,
            None => r matches Err(Error::Tokenize(text, reason)) && text@ == str@ && reason@ == (
            if str@.len() == 0 {
                "no characters"@
            } else {
                "too many characters"@
            }),
        },
{
    let text = String::from_str(str);
    if text.eq(&String::from_str("__START__")) {
        return Ok(Token::Start);
    }
    if text.eq(&String::from_str("__END__")) {
        return Ok(Token::End);
    }
    let n = str.unicode_len();
    if n == 1 {
        Ok(Token::Char(str.get_char(0)))
    } else if n == 0 {
        Err(Error::Tokenize(text, "no characters"))
    } else {
        Err(Error::Tokenize(text, "too many characters"))
    }
}

} // verus!
