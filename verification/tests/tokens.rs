use lingk::error::Error;
use lingk::token::{as_char_token, CharTokenizer, PositionalCharTokenizer, Token, Tokenizer};

#[test]
fn char_tokenizer_lowers_and_brackets() {
    let tokens = CharTokenizer.tokenize("aAb");
    assert_eq!(
        tokens,
        vec![Token::Start, Token::Char('a'), Token::Char('a'), Token::Char('b'), Token::End]
    );
}

#[test]
fn char_tokenizer_on_empty_text_gives_the_two_sentinels() {
    assert_eq!(CharTokenizer.tokenize(""), vec![Token::Start, Token::End]);
}

#[test]
fn positional_tokenizer_carries_indices() {
    let tokens = PositionalCharTokenizer.tokenize("Hi");
    assert_eq!(
        tokens,
        vec![
            Token::Start,
            Token::PositionalChar { c: 'h', i: 0 },
            Token::PositionalChar { c: 'i', i: 1 },
            Token::End
        ]
    );
}

#[test]
fn tokens_render_as_their_text() {
    assert_eq!(Token::Start.to_string(), "");
    assert_eq!(Token::End.to_string(), "");
    assert_eq!(Token::Char('x').to_string(), "x");
    assert_eq!(Token::PositionalChar { c: 'y', i: 7 }.to_string(), "y");
    assert_eq!(Token::Str("word".to_string()).to_string(), "word");
}

#[test]
fn literals_denote_tokens() {
    assert_eq!(as_char_token("a").unwrap(), Token::Char('a'));
    assert_eq!(as_char_token("é").unwrap(), Token::Char('é'));
    assert_eq!(as_char_token("__START__").unwrap(), Token::Start);
    assert_eq!(as_char_token("__END__").unwrap(), Token::End);
}

#[test]
fn other_literals_are_refused() {
    match as_char_token("ab") {
        Err(Error::Tokenize(text, reason)) => {
            assert_eq!(text, "ab");
            assert_eq!(reason, "too many characters");
        }
        _ => panic!("a two-character literal was accepted"),
    }
    match as_char_token("") {
        Err(Error::Tokenize(text, reason)) => {
            assert_eq!(text, "");
            assert_eq!(reason, "no characters");
        }
        _ => panic!("an empty literal was accepted"),
    }
}

#[test]
fn error_messages() {
    assert_eq!(Error::MissingArg("filename").to_string(), "argument filename not provided");
    assert_eq!(
        Error::NoModel.to_string(),
        "no model is currently loaded. Please load or initialise a model"
    );
    assert_eq!(Error::ModelError("token not found").to_string(), "Error in model: token not found");
    assert_eq!(
        Error::Tokenize("ab".to_string(), "too many characters").to_string(),
        "Error tokenizing string ab. Reason: too many characters"
    );
    assert_eq!(Error::TokenNotFound(Token::Char('q')).to_string(), "Token not found: q");
}

#[test]
fn foreign_errors_keep_their_text() {
    let parse = "x".parse::<i32>().unwrap_err();
    let detail = parse.to_string();
    let error = Error::from(parse);
    assert!(matches!(error, Error::ParseInt(_)));
    assert_eq!(error.to_string(), format!("could not parse param as int - {}", detail));

    let json = serde_json::from_str::<i32>("x").unwrap_err();
    let detail = json.to_string();
    let error = Error::from(json);
    assert!(matches!(error, Error::Serde(_)));
    assert_eq!(error.to_string(), detail);

    let io = std::io::Error::new(std::io::ErrorKind::Other, "disk on fire");
    let error = Error::from(io);
    assert!(matches!(error, Error::Io(_)));
    assert_eq!(error.to_string(), "disk on fire");
}

#[test]
fn library_errors_have_messages() {
    assert_eq!(Error::NotRecomputed.to_string(), "weights requested before calculation");
    assert_eq!(Error::NodeNotFound(Token::Char('n')).to_string(), "Node not found for token: n");
    assert_eq!(
        Error::GenerationDivergence.to_string(),
        "generation did not reach the end within its step limit"
    );
}
