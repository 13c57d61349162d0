use jsonflat::lexer::Lexer;
use jsonflat::lexer::Token;
use jsonflat::lexer;
use jsonflat::shell::flatten;
use jsonflat::shell::render_line;
use jsonflat::shell::sanitize_name;
use jsonflat::shell::ErrorKind;
use jsonflat::shell::Parser;
use jsonflat::shell::Value;

fn lex_all(input: &str) -> Vec<Token> {
    let mut lexer = Lexer::new(input);
    let mut tokens = Vec::new();
    while let Some(t) = lexer.next() {
        tokens.push(t);
    }
    tokens
}

fn assert_parser(input: Vec<Token>, expected_output: Vec<(String, Value)>) {
    let mut it = Parser::new(input, "root");
    let mut i = 0;
    loop {
        match it.next() {
            Ok(Some(o)) => {
                assert_eq!(o, expected_output[i], "; Index: {}", i.to_string());
                i += 1;
            }
            Ok(None) => break,
            Err(k) => panic!("structural error {:?} after {} pairs", k, i),
        }
    }
    assert_eq!(i, expected_output.len());
}

#[test]
fn array_of_primitives() {
    let input = vec![
        Token::LBracket,
        Token::Value(lexer::Value::True),
        Token::Comma,
        Token::Value(lexer::Value::False),
        Token::Comma,
        Token::Value(lexer::Value::Null),
        Token::Comma,
        Token::Value(lexer::Value::Number("23".to_string())),
        Token::Comma,
        Token::Value(lexer::Value::Text("abc".to_string())),
        Token::RBracket,
    ];

    let expected = vec![
        ("root_0".to_string(), Value::True),
        ("root_1".to_string(), Value::False),
        ("root_2".to_string(), Value::Null),
        ("root_3".to_string(), Value::Number("23".to_string())),
        ("root_4".to_string(), Value::Text("abc".to_string())),
    ];

    assert_parser(input, expected);
}

#[test]
fn object_of_primitives() {
    let input = vec![
        Token::LBrace,
        Token::Value(lexer::Value::Text("a".to_string())),
        Token::Colon,
        Token::Value(lexer::Value::True),
        Token::Comma,
        Token::Value(lexer::Value::Text("b".to_string())),
        Token::Colon,
        Token::Value(lexer::Value::False),
        Token::Comma,
        Token::Value(lexer::Value::Text("c".to_string())),
        Token::Colon,
        Token::Value(lexer::Value::Text("test".to_string())),
        Token::RBrace,
    ];

    let expected = vec![
        ("root_a".to_string(), Value::True),
        ("root_b".to_string(), Value::False),
        ("root_c".to_string(), Value::Text("test".to_string())),
    ];

    assert_parser(input, expected);
}

#[test]
fn array_of_objects() {
    let input = vec![
        Token::LBracket,
        Token::LBrace,
        Token::Value(lexer::Value::Text("a1".to_string())),
        Token::Colon,
        Token::Value(lexer::Value::True),
        Token::RBrace,
        Token::Comma,
        Token::LBrace,
        Token::Value(lexer::Value::Text("a2".to_string())),
        Token::Colon,
        Token::Value(lexer::Value::False),
        Token::RBrace,
        Token::RBracket,
    ];

    let expected = vec![
        ("root_0_a1".to_string(), Value::True),
        ("root_1_a2".to_string(), Value::False),
    ];

    assert_parser(input, expected);
}

#[test]
fn object_of_array() {
    let input = vec![
        Token::LBrace,
        Token::Value(lexer::Value::Text("a".to_string())),
        Token::Colon,
        Token::LBracket,
        Token::Value(lexer::Value::Null),
        Token::Comma,
        Token::Value(lexer::Value::Text("v".to_string())),
        Token::RBracket,
        Token::RBrace,
    ];

    let expected = vec![
        ("root_a_0".to_string(), Value::Null),
        ("root_a_1".to_string(), Value::Text("v".to_string())),
    ];

    assert_parser(input, expected);
}

#[test]
fn deep() {
    let input = vec![
        Token::LBrace,
        Token::Value(lexer::Value::Text("a".to_string())),
        Token::Colon,
        Token::LBracket,
        Token::LBrace,
        Token::Value(lexer::Value::Text("b".to_string())),
        Token::Colon,
        Token::LBracket,
        Token::Value(lexer::Value::True),
        Token::RBracket,
        Token::RBrace,
        Token::RBracket,
        Token::LBrace,
    ];

    let expected = vec![("root_a_0_b_0".to_string(), Value::True)];

    let (pairs, err) = flatten(input, "root");
    assert_eq!(pairs, expected);
    // The source ends with containers still open, which the engine
    // reports once the pairs are out.
    assert_eq!(err, Some(ErrorKind::UnterminatedDocument));
}

#[test]
fn bruh() {
    let input = lex_all(
        "
{
  \"version\":\"2.0\",
  \"metadata\":{
    \"apiVersion\":\"2016-11-15\",
    \"endpointPrefix\":\"ec2\",
    \"protocol\":\"ec2\",
    \"serviceAbbreviation\":\"Amazon EC2\",
    \"serviceFullName\":\"Amazon Elastic Compute Cloud\",
    \"serviceId\":\"EC2\",
    \"signatureVersion\":\"v4\",
    \"uid\":\"ec2-2016-11-15\",
    \"xmlNamespace\":\"http://ec2.amazonaws.com/doc/2016-11-15\"
  },
  \"operations\":{
    \"AcceptReservedInstancesExchangeQuote\":{
      \"name\":\"AcceptReservedInstancesExchangeQuote\"
    }
  }
}
        ",
    );

    let expected = vec![
        ("root_version".to_string(), Value::Text("2.0".to_string())),
        ("root_metadata_apiVersion".to_string(), Value::Text("2016-11-15".to_string())),
        ("root_metadata_endpointPrefix".to_string(), Value::Text("ec2".to_string())),
        ("root_metadata_protocol".to_string(), Value::Text("ec2".to_string())),
        ("root_metadata_serviceAbbreviation".to_string(), Value::Text("Amazon EC2".to_string())),
        (
            "root_metadata_serviceFullName".to_string(),
            Value::Text("Amazon Elastic Compute Cloud".to_string()),
        ),
        ("root_metadata_serviceId".to_string(), Value::Text("EC2".to_string())),
        ("root_metadata_signatureVersion".to_string(), Value::Text("v4".to_string())),
        ("root_metadata_uid".to_string(), Value::Text("ec2-2016-11-15".to_string())),
        (
            "root_metadata_xmlNamespace".to_string(),
            Value::Text("http://ec2.amazonaws.com/doc/2016-11-15".to_string()),
        ),
        (
            "root_operations_AcceptReservedInstancesExchangeQuote_name".to_string(),
            Value::Text("AcceptReservedInstancesExchangeQuote".to_string()),
        ),
    ];

    assert_parser(input, expected);
}

#[test]
fn scenario_array_of_scalars_renders() {
    let tokens = lex_all("[true,false,null,23,\"abc\"]");
    let (pairs, err) = flatten(tokens, "root");
    assert_eq!(err, None);
    let lines: Vec<String> = pairs
        .iter()
        .map(|(path, value)| format!("{}={}", path, value.render()))
        .collect();
    assert_eq!(
        lines,
        vec![
            "root_0=true".to_string(),
            "root_1=false".to_string(),
            "root_2=null".to_string(),
            "root_3=23".to_string(),
            "root_4=abc".to_string(),
        ]
    );
}

#[test]
fn scenario_object_of_array_renders() {
    let tokens = lex_all("{\"a\":[null,\"v\"]}");
    let (pairs, err) = flatten(tokens, "root");
    assert_eq!(err, None);
    let lines: Vec<String> = pairs
        .iter()
        .map(|(path, value)| format!("{}={}", path, value.render()))
        .collect();
    assert_eq!(lines, vec!["root_a_0=null".to_string(), "root_a_1=v".to_string()]);
}

#[test]
fn scenario_deeply_nested_single_pair() {
    let tokens = lex_all("{\"a\":[{\"b\":[true]}]}");
    let (pairs, err) = flatten(tokens, "root");
    assert_eq!(err, None);
    assert_eq!(pairs, vec![("root_a_0_b_0".to_string(), Value::True)]);
}

#[test]
fn scenario_unbalanced_close_fails_with_no_pairs() {
    let (pairs, err) = flatten(vec![Token::RBracket], "root");
    assert_eq!(pairs, Vec::<(String, Value)>::new());
    assert_eq!(err, Some(ErrorKind::UnbalancedClose));

    let mut p = Parser::new(vec![Token::RBracket], "root");
    assert_eq!(p.next(), Err(ErrorKind::UnbalancedClose));
}

#[test]
fn wrong_close_kind_fails() {
    let (pairs, err) = flatten(vec![Token::LBracket, Token::RBrace], "root");
    assert_eq!(pairs.len(), 0);
    assert_eq!(err, Some(ErrorKind::UnbalancedClose));
}

#[test]
fn comma_outside_container_fails() {
    let (pairs, err) = flatten(vec![Token::Comma], "root");
    assert_eq!(pairs.len(), 0);
    assert_eq!(err, Some(ErrorKind::MisplacedComma));
}

#[test]
fn comma_after_bare_key_fails() {
    let (pairs, err) = flatten(
        vec![
            Token::LBrace,
            Token::Value(lexer::Value::Text("a".to_string())),
            Token::Comma,
        ],
        "root",
    );
    assert_eq!(pairs.len(), 0);
    assert_eq!(err, Some(ErrorKind::MisplacedComma));
}

#[test]
fn colon_outside_key_value_boundary_fails() {
    let (pairs, err) = flatten(vec![Token::LBracket, Token::Colon], "root");
    assert_eq!(pairs.len(), 0);
    assert_eq!(err, Some(ErrorKind::MisplacedColon));
}

#[test]
fn unterminated_document_fails() {
    let (pairs, err) = flatten(vec![Token::LBracket], "root");
    assert_eq!(pairs.len(), 0);
    assert_eq!(err, Some(ErrorKind::UnterminatedDocument));
}

#[test]
fn illegal_token_aborts_the_run() {
    let (pairs, err) = flatten(vec![Token::Illegal("@".to_string())], "root");
    assert_eq!(pairs.len(), 0);
    assert_eq!(err, Some(ErrorKind::UnterminatedDocument));
}

#[test]
fn scalar_root_value() {
    let (pairs, err) = flatten(lex_all("true"), "root");
    assert_eq!(pairs, vec![("root".to_string(), Value::True)]);
    assert_eq!(err, None);
}

#[test]
fn two_root_values_back_to_back() {
    let (pairs, err) = flatten(lex_all("1 2"), "root");
    assert_eq!(
        pairs,
        vec![
            ("root".to_string(), Value::Number("1".to_string())),
            ("root".to_string(), Value::Number("2".to_string())),
        ]
    );
    assert_eq!(err, None);
}

#[test]
fn duplicate_keys_emit_two_pairs() {
    let (pairs, err) = flatten(lex_all("{\"k\":1,\"k\":2}"), "root");
    assert_eq!(
        pairs,
        vec![
            ("root_k".to_string(), Value::Number("1".to_string())),
            ("root_k".to_string(), Value::Number("2".to_string())),
        ]
    );
    assert_eq!(err, None);
}

#[test]
fn repeated_runs_agree() {
    // The output is a function of the token stream alone: two engines
    // over the same source, one driven pair by pair and one all at once,
    // agree exactly.
    let text = "{\"a\":[1,{\"b\":null},\"x\"],\"c\":true}";
    let (pairs_once, err_once) = flatten(lex_all(text), "root");
    let mut p = Parser::new(lex_all(text), "root");
    let mut pairs_again = Vec::new();
    let err_again = loop {
        match p.next() {
            Ok(Some(pair)) => pairs_again.push(pair),
            Ok(None) => break None,
            Err(k) => break Some(k),
        }
    };
    assert_eq!(pairs_once, pairs_again);
    assert_eq!(err_once, err_again);
}

#[test]
fn advance_and_get_protocol() {
    let mut p = Parser::new(lex_all("[true,false]"), "root");
    // Before the first advance the current pair is the dummy the engine
    // starts with.
    assert_eq!(p.get(), Some(&("root".to_string(), Value::Null)));
    p.advance();
    assert_eq!(p.get(), Some(&("root_0".to_string(), Value::True)));
    p.advance();
    assert_eq!(p.get(), Some(&("root_1".to_string(), Value::False)));
    p.advance();
    assert_eq!(p.get(), None);
}

#[test]
fn render_scalars() {
    assert_eq!(Value::True.render(), "true");
    assert_eq!(Value::False.render(), "false");
    assert_eq!(Value::Null.render(), "null");
    assert_eq!(Value::Text("abc".to_string()).render(), "abc");
    assert_eq!(Value::Number("23".to_string()).render(), "23");
}

#[test]
fn sanitize_strips_foreign_characters() {
    assert_eq!(sanitize_name("root_a"), "root_a");
    assert_eq!(sanitize_name("root_x.y-z"), "root_xyz");
    assert_eq!(sanitize_name("A1_b2"), "A1_b2");
}

#[test]
fn render_line_shapes_the_reference_output() {
    let line = render_line("root_a.b", &Value::Text("v".to_string()));
    assert_eq!(line, "root_ab=\"v\"");
}

#[test]
fn array_indices_skip_nothing_around_containers() {
    // A container element keeps its index as the prefix of its own pairs,
    // and its neighbours' indices continue past it.
    let (pairs, err) = flatten(lex_all("[0,[1],2]"), "root");
    assert_eq!(
        pairs,
        vec![
            ("root_0".to_string(), Value::Number("0".to_string())),
            ("root_1_0".to_string(), Value::Number("1".to_string())),
            ("root_2".to_string(), Value::Number("2".to_string())),
        ]
    );
    assert_eq!(err, None);
}

#[test]
fn caller_chosen_root_name() {
    let (pairs, err) = flatten(lex_all("{\"a\":[true]}"), "cfg");
    assert_eq!(pairs, vec![("cfg_a_0".to_string(), Value::True)]);
    assert_eq!(err, None);

    let mut p = Parser::new(lex_all("7"), "top");
    assert_eq!(p.next(), Ok(Some(("top".to_string(), Value::Number("7".to_string())))));
    assert_eq!(p.next(), Ok(None));
}
