use css_syntax::nodes::{Declaration, Rule, Selector, Value};
use css_syntax::parser::{Expected, Parser, ParsingError};
use css_syntax::token::{Token, TokenStream};
use cssparser::{Parser as Lexer, Token as LexTok};

fn chars(s: &str) -> Vec<char> {
    s.chars().collect()
}

/// Flattens cssparser's nested token stream into the library's flat token
/// sequence: block contents appear inline between their opener and an
/// explicitly appended closer.
fn flatten(lexer: &mut Lexer, out: &mut Vec<Token>) {
    loop {
        let tok = match lexer.next_including_whitespace() {
            Ok(t) => t.clone(),
            Err(_) => return,
        };
        match tok {
            LexTok::Ident(v) => out.push(Token::Ident(chars(&v))),
            LexTok::AtKeyword(v) => out.push(Token::AtKeyword(chars(&v))),
            LexTok::Hash(v) => out.push(Token::Hash(chars(&v))),
            LexTok::IDHash(v) => out.push(Token::IdHash(chars(&v))),
            LexTok::QuotedString(v) => out.push(Token::QuotedString(chars(&v))),
            LexTok::UnquotedUrl(v) => out.push(Token::UnquotedUrl(chars(&v))),
            LexTok::Delim(c) => out.push(Token::Delim(c)),
            LexTok::Number { value, int_value, .. } => out.push(Token::Number {
                int_value,
                text: chars(&format!("{}", value)),
            }),
            LexTok::Percentage { unit_value, int_value, .. } => out.push(Token::Percentage {
                int_value,
                text: chars(&format!("{}", unit_value * 100.0)),
            }),
            LexTok::Dimension { value, int_value, unit, .. } => out.push(Token::Dimension {
                int_value,
                text: chars(&format!("{}", value)),
                unit: chars(&unit),
            }),
            LexTok::WhiteSpace(w) => out.push(Token::WhiteSpace(chars(w))),
            LexTok::Comment(_) => out.push(Token::Other),
            LexTok::Colon => out.push(Token::Colon),
            LexTok::Semicolon => out.push(Token::Semicolon),
            LexTok::Comma => out.push(Token::Comma),
            LexTok::IncludeMatch => out.push(Token::IncludeMatch),
            LexTok::DashMatch => out.push(Token::DashMatch),
            LexTok::PrefixMatch => out.push(Token::PrefixMatch),
            LexTok::SuffixMatch => out.push(Token::SuffixMatch),
            LexTok::SubstringMatch => out.push(Token::SubstringMatch),
            LexTok::CDO | LexTok::CDC => out.push(Token::Other),
            LexTok::BadUrl(_) | LexTok::BadString(_) => out.push(Token::Other),
            LexTok::Function(name) => {
                out.push(Token::Function(chars(&name)));
                let _ = lexer.parse_nested_block::<_, (), ()>(|inner| {
                    flatten(inner, out);
                    Ok(())
                });
                out.push(Token::CloseParen);
            }
            LexTok::ParenthesisBlock => {
                out.push(Token::ParenOpen);
                let _ = lexer.parse_nested_block::<_, (), ()>(|inner| {
                    flatten(inner, out);
                    Ok(())
                });
                out.push(Token::CloseParen);
            }
            LexTok::SquareBracketBlock => {
                out.push(Token::BracketOpen);
                let _ = lexer.parse_nested_block::<_, (), ()>(|inner| {
                    flatten(inner, out);
                    Ok(())
                });
                out.push(Token::CloseBracket);
            }
            LexTok::CurlyBracketBlock => {
                out.push(Token::CurlyOpen);
                let _ = lexer.parse_nested_block::<_, (), ()>(|inner| {
                    flatten(inner, out);
                    Ok(())
                });
                out.push(Token::CloseCurly);
            }
            LexTok::CloseParenthesis => out.push(Token::CloseParen),
            LexTok::CloseSquareBracket => out.push(Token::CloseBracket),
            LexTok::CloseCurlyBracket => out.push(Token::CloseCurly),
        }
    }
}

fn tokenize(css: &str) -> TokenStream {
    let mut lexer = Lexer::new(css);
    let mut out: Vec<Token> = Vec::new();
    flatten(&mut lexer, &mut out);
    TokenStream::new(out)
}

fn selector_texts(sels: &[Selector]) -> Vec<&str> {
    sels.iter().map(|s| s.0.as_str()).collect()
}

#[test]
fn parse_value() {
    let input = r#"
center / contain no-repeat
      url('../../media/examples/firefox-logo.svg'),
    #eee 35% url('../../media/examples/lizard.png')
        "#;
    let mut ts = tokenize(input);
    Parser::new().parse_value(&mut ts).unwrap();
}

#[test]
fn parse_declaration() {
    let input = "border-color: hsl(var(--b2) / var(--tw-border-opacity));";
    let mut ts = tokenize(input);
    Parser::new().parse_declaration(&mut ts).unwrap();
}

#[test]
fn parse_declaration_block() {
    let input = "{ border-color: red; color: red; }";
    let mut ts = tokenize(input);
    Parser::new().parse_declaration_block(&mut ts).unwrap();
}

#[test]
fn parse_selectors() {
    let input = "input, .btn {}";
    let mut ts = tokenize(input);
    Parser::new().parse_selectors(&mut ts).unwrap();
}

#[test]
fn parse_rule() {
    let input = r##"
        [dir='rtl'] .tab-lifted.tab-active:not(.tab-disabled):not([disabled]):after,
        input {
          color: red;
          background: center / contain no-repeat
              url('../../media/examples/firefox-logo.svg'),
            #eee 35% url('../../media/examples/lizard.png');
        }"##;
    let mut ts = tokenize(input);
    Parser::new().parse_rule(&mut ts).unwrap();
}

#[test]
fn declaration_property_and_trimmed_value() {
    let mut ts = tokenize("foo:   2px  4px  ;");
    let Declaration(prop, val) = Parser::new().parse_declaration(&mut ts).unwrap();
    assert_eq!(prop.0, "foo");
    assert_eq!(val.0, "2px  4px");
}

#[test]
fn value_keeps_balanced_nesting() {
    let mut ts = tokenize("  a(b[c(d)] e) f  ");
    let Value(text) = Parser::new().parse_value(&mut ts).unwrap();
    assert_eq!(text, "a(b[c(d)] e) f");
}

#[test]
fn selectors_split_on_top_level_commas_only() {
    let mut ts = tokenize("a(b, c), d {}");
    let sels = Parser::new().parse_selectors(&mut ts).unwrap();
    assert_eq!(selector_texts(&sels), vec!["a(b, c)", "d"]);

    let mut ts2 = tokenize("input ~ input {}");
    let sels2 = Parser::new().parse_selectors(&mut ts2).unwrap();
    assert_eq!(selector_texts(&sels2), vec!["input ~ input"]);
}

#[test]
fn declaration_block_missing_semicolon_rejected() {
    let mut ts = tokenize("{ color: red color: blue; }");
    let err = Parser::new().parse_declaration_block(&mut ts).unwrap_err();
    assert!(matches!(
        err,
        ParsingError::UnexpectedToken { expected: Expected::Semicolon, .. }
    ));

    let mut ts2 = tokenize("{ color: red; }");
    let ds2 = Parser::new().parse_declaration_block(&mut ts2).unwrap();
    assert_eq!(ds2.len(), 1);
    assert_eq!(ds2[0].0 .0, "color");
    assert_eq!(ds2[0].1 .0, "red");

    let mut ts3 = tokenize("{ color: red }");
    let ds3 = Parser::new().parse_declaration_block(&mut ts3).unwrap();
    assert_eq!(ds3.len(), 1);
    assert_eq!(ds3[0].0 .0, "color");
    assert_eq!(ds3[0].1 .0, "red");
}

#[test]
fn declaration_with_nested_functions() {
    let mut ts = tokenize("border-color: hsl(var(--b2) / var(--tw-border-opacity));");
    let Declaration(prop, val) = Parser::new().parse_declaration(&mut ts).unwrap();
    assert_eq!(prop.0, "border-color");
    assert_eq!(val.0, "hsl(var(--b2) / var(--tw-border-opacity))");
}

#[test]
fn selectors_and_rule_for_two_item_list() {
    let mut ts = tokenize("input, .btn {}");
    let sels = Parser::new().parse_selectors(&mut ts).unwrap();
    assert_eq!(selector_texts(&sels), vec!["input", ".btn"]);

    let mut ts2 = tokenize("input, .btn {}");
    let rule: Rule = Parser::new().parse_rule(&mut ts2).unwrap();
    assert_eq!(selector_texts(&rule.selectors), vec!["input", ".btn"]);
    assert!(rule.declaration_block.is_empty());
}

#[test]
fn value_run_with_slash_comma_and_urls() {
    let mut ts = tokenize("center / contain no-repeat url('x.svg'), #eee 35% url('y.png')");
    let Value(text) = Parser::new().parse_value(&mut ts).unwrap();
    assert_eq!(text, "center / contain no-repeat url('x.svg'), #eee 35% url('y.png')");
}

#[test]
fn nesting_depth_guard() {
    // more openers than the default limit allows
    let mut toks: Vec<Token> = Vec::new();
    for _ in 0..257 {
        toks.push(Token::ParenOpen);
    }
    let mut ts = TokenStream::new(toks);
    let err = Parser::new().parse_value(&mut ts).unwrap_err();
    assert_eq!(err, ParsingError::NestingTooDeep);

    // a configured limit is honoured on both sides
    let mut ts2 = tokenize("a(b(c))");
    let err2 = Parser::with_max_depth(1).parse_value(&mut ts2).unwrap_err();
    assert_eq!(err2, ParsingError::NestingTooDeep);

    let mut ts3 = tokenize("a(b(c))");
    let Value(text) = Parser::with_max_depth(2).parse_value(&mut ts3).unwrap();
    assert_eq!(text, "a(b(c))");
}

#[test]
fn numeric_tokens_prefer_exact_integers() {
    let mut ts = tokenize("12px 1.5em -3 50% x");
    let Value(text) = Parser::new().parse_value(&mut ts).unwrap();
    assert_eq!(text, "12px 1.5em -3 50% x");
}

#[test]
fn unmatched_closer_is_ignored() {
    let mut ts = tokenize("a ) b");
    let Value(text) = Parser::new().parse_value(&mut ts).unwrap();
    assert_eq!(text, "a  b");
}

#[test]
fn semicolon_inside_block_cuts_it_short() {
    let mut ts = tokenize("f(a;b) c");
    let Value(text) = Parser::new().parse_value(&mut ts).unwrap();
    assert_eq!(text, "f(a) c");
}

#[test]
fn unterminated_block_is_closed() {
    let mut ts = tokenize("f(a");
    let Value(text) = Parser::new().parse_value(&mut ts).unwrap();
    assert_eq!(text, "f(a)");
}

#[test]
fn declaration_expectation_errors() {
    let mut ts = tokenize(": red;");
    let err = Parser::new().parse_declaration(&mut ts).unwrap_err();
    assert!(matches!(
        err,
        ParsingError::UnexpectedToken { expected: Expected::Identifier, .. }
    ));

    let mut ts2 = tokenize("color red;");
    let err2 = Parser::new().parse_declaration(&mut ts2).unwrap_err();
    assert!(matches!(
        err2,
        ParsingError::UnexpectedToken { expected: Expected::Colon, .. }
    ));

    let mut ts3 = tokenize("   ");
    let err3 = Parser::new().parse_declaration(&mut ts3).unwrap_err();
    assert_eq!(err3, ParsingError::EndOfInput { expected: Expected::Identifier });

    let mut ts4 = tokenize("color");
    let err4 = Parser::new().parse_declaration(&mut ts4).unwrap_err();
    assert_eq!(err4, ParsingError::EndOfInput { expected: Expected::Colon });
}

#[test]
fn block_expects_curly_opener() {
    let mut ts = tokenize("color: red;");
    let err = Parser::new().parse_declaration_block(&mut ts).unwrap_err();
    assert!(matches!(
        err,
        ParsingError::UnexpectedToken { expected: Expected::CurlyBlock, .. }
    ));

    let mut ts2 = tokenize("  ");
    let err2 = Parser::new().parse_declaration_block(&mut ts2).unwrap_err();
    assert_eq!(err2, ParsingError::EndOfInput { expected: Expected::CurlyBlock });
}

#[test]
fn eat_returns_untrimmed_text_and_stops_at_curly() {
    let mut ts = tokenize("abc { x }");
    let text = Parser::new().eat(&mut ts).unwrap();
    assert_eq!(text, "abc ");
}

#[test]
fn match_operators_and_hashes_reconstructed() {
    let mut ts = tokenize("a[href^='x'][lang|='en'] #id .cls {}");
    let sels = Parser::new().parse_selectors(&mut ts).unwrap();
    assert_eq!(selector_texts(&sels), vec!["a[href^='x'][lang|='en'] #id .cls"]);
}

#[test]
fn rule_parses_selectors_then_block() {
    let mut ts = tokenize("a, b { x: 1; y: f(2, 3) }");
    let rule = Parser::new().parse_rule(&mut ts).unwrap();
    assert_eq!(selector_texts(&rule.selectors), vec!["a", "b"]);
    assert_eq!(rule.declaration_block.len(), 2);
    assert_eq!(rule.declaration_block[0].0 .0, "x");
    assert_eq!(rule.declaration_block[0].1 .0, "1");
    assert_eq!(rule.declaration_block[1].0 .0, "y");
    assert_eq!(rule.declaration_block[1].1 .0, "f(2, 3)");
}

#[test]
fn unrecognized_tokens_emit_nothing() {
    let mut ts = tokenize("a <!-- b");
    let Value(text) = Parser::new().parse_value(&mut ts).unwrap();
    assert_eq!(text, "a  b");
}

#[test]
fn empty_and_trailing_selector_segments() {
    let mut ts = tokenize("{}");
    let sels = Parser::new().parse_selectors(&mut ts).unwrap();
    assert_eq!(selector_texts(&sels), vec![""]);

    let mut ts2 = tokenize("a, {}");
    let sels2 = Parser::new().parse_selectors(&mut ts2).unwrap();
    assert_eq!(selector_texts(&sels2), vec!["a", ""]);
}

#[test]
fn fractional_percentage_and_dimension() {
    let mut ts = tokenize("3.5% 1.25em");
    let Value(text) = Parser::new().parse_value(&mut ts).unwrap();
    assert_eq!(text, "3.5% 1.25em");
}

#[test]
fn unterminated_bracket_is_closed() {
    let mut ts = tokenize("[a");
    let Value(text) = Parser::new().parse_value(&mut ts).unwrap();
    assert_eq!(text, "[a]");
}

#[test]
fn rules_parse_in_sequence_from_one_stream() {
    let mut ts = tokenize("a { x: 1 } b { y: 2; }");
    let parser = Parser::new();
    let first = parser.parse_rule(&mut ts).unwrap();
    assert_eq!(selector_texts(&first.selectors), vec!["a"]);
    assert_eq!(first.declaration_block.len(), 1);
    assert_eq!(first.declaration_block[0].0 .0, "x");
    assert_eq!(first.declaration_block[0].1 .0, "1");
    let second = parser.parse_rule(&mut ts).unwrap();
    assert_eq!(selector_texts(&second.selectors), vec!["b"]);
    assert_eq!(second.declaration_block.len(), 1);
    assert_eq!(second.declaration_block[0].0 .0, "y");
    assert_eq!(second.declaration_block[0].1 .0, "2");
}
