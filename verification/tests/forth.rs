use hllset::forth::{parse, Ast, ParseError, Word};

fn ident(s: &str) -> Word {
    Word::Ident(s.to_string())
}

fn value(w: &Word) -> f64 {
    w.as_num().unwrap().parse::<f64>().unwrap()
}

#[test]
fn test_display() {
    let ast = Ast::new(vec![
        Word::Str("hello".into()),
        Word::Str("world".into()),
        Word::Num("2".into()),
        Word::Ident("INSCRIBE".into()),
    ]);
    assert_eq!(ast.to_string(), "\"hello\" \"world\" 2 INSCRIBE ");
}

#[test]
fn test_empty() {
    let ast = parse("").unwrap();
    assert!(ast.is_empty());
}

#[test]
fn test_simple_words() {
    let ast = parse("DUP SWAP DROP").unwrap();
    assert_eq!(ast.words.len(), 3);
    assert_eq!(ast.words[0], ident("DUP"));
    assert_eq!(ast.words[1], ident("SWAP"));
    assert_eq!(ast.words[2], ident("DROP"));
}

#[test]
fn test_string_literal() {
    let ast = parse(r#""hello world" INSCRIBE"#).unwrap();
    assert_eq!(ast.words.len(), 2);
    assert_eq!(ast.words[0], Word::Str("hello world".into()));
    assert_eq!(ast.words[1], ident("INSCRIBE"));
}

#[test]
fn test_numbers() {
    let ast = parse("42 3.14 -1 INSCRIBE").unwrap();
    assert_eq!(ast.words.len(), 4);
    assert_eq!(value(&ast.words[0]), 42.0);
    assert_eq!(value(&ast.words[1]), 3.14);
    assert_eq!(value(&ast.words[2]), -1.0);
    assert_eq!(ast.words[3], ident("INSCRIBE"));
}

#[test]
fn test_line_comment() {
    let ast = parse("DUP \\ this is a comment\n SWAP").unwrap();
    assert_eq!(ast.words.len(), 2);
    assert_eq!(ast.words[0], ident("DUP"));
    assert_eq!(ast.words[1], ident("SWAP"));
}

#[test]
fn test_block_comment() {
    let ast = parse("DUP ( this is a comment ) SWAP").unwrap();
    assert_eq!(ast.words.len(), 2);
}

#[test]
fn test_nested_block_comment() {
    let ast = parse("DUP ( outer ( inner ) still comment ) SWAP").unwrap();
    assert_eq!(ast.words.len(), 2);
}

#[test]
fn test_hllset_program() {
    let src = r#""neural" "network" 2 INSCRIBE"gradient" "backprop" 2 INSCRIBE INTERSECT STORE"#;
    let ast = parse(src).unwrap();
    assert_eq!(ast.words.len(), 10);
    let displayed = ast.to_string();
    let reparsed = parse(&displayed).unwrap();
    assert_eq!(ast.words.len(), reparsed.words.len());
    assert_eq!(ast, reparsed);
}

#[test]
fn test_unterminated_string() {
    assert!(parse(r#""hello"#).is_err());
}

#[test]
fn test_colon_definition() {
    let ast = parse(r#": DOUBLE 2 * ;"#).unwrap();
    assert_eq!(ast.words.len(), 1);
    match &ast.words[0] {
        Word::ColonDef { name, body } => {
            assert_eq!(name, "DOUBLE");
            assert_eq!(body.len(), 2); // 2, *
        }
        _ => panic!("expected ColonDef"),
    }
}

#[test]
fn what_does_not_end_is_refused() {
    assert_eq!(parse("( open"), Err(ParseError::UnterminatedComment));
    assert_eq!(parse("DUP \"open"), Err(ParseError::UnterminatedString));
    assert_eq!(parse("\"open\\"), Err(ParseError::UnterminatedString));
    assert_eq!(
        ParseError::UnterminatedString.to_string(),
        "unterminated string literal"
    );
    assert_eq!(
        ParseError::UnterminatedComment.to_string(),
        "unterminated block comment"
    );
}

#[test]
fn numerals_are_those_of_floating_point_numbers() {
    let samples = [
        "1", "+1", "-1", "1.", ".5", "1.5", "-.5e3", "1e10", "1E-10", "2e+4", "inf", "-Infinity",
        "NaN", "nan", "99999999999999999999", "", "+", "-", ".", "e5", "1e", "1e+", "1.2.3", "0x10",
        "1_000", "--1", "infin", "1e1.5", "one", "5e5e5",
    ];
    for s in samples {
        let is_number = s.parse::<f64>().is_ok();
        match parse(s).unwrap().words.first() {
            None => assert!(s.is_empty()),
            Some(Word::Num(n)) => assert!(is_number && n == s, "{s}"),
            Some(Word::Ident(n)) => assert!(!is_number && n == s, "{s}"),
            Some(w) => panic!("{s} reads as {}", w.to_string()),
        }
    }
}

#[test]
fn escapes_take_the_next_character() {
    let ast = parse(r#""a\"b\\c""#).unwrap();
    assert_eq!(ast.words[0].as_str(), Some("a\"b\\c"));
    assert_eq!(ast.words[0].as_ident(), None);
    assert_eq!(ast.words[0].as_num(), None);
}

#[test]
fn definitions_need_a_name_and_an_end() {
    assert_eq!(parse(": ;").unwrap().words, vec![ident(":"), ident(";")]);
    assert_eq!(
        parse(": F DUP").unwrap().words,
        vec![ident(":"), ident("F"), ident("DUP")]
    );
    assert_eq!(
        parse(": F ; G").unwrap().words,
        vec![
            Word::ColonDef { name: "F".into(), body: vec![] },
            ident("G")
        ]
    );
    let text = parse(": SQ DUP * ; 3 SQ").unwrap().to_string();
    assert_eq!(text, ": SQ DUP * ; 3 SQ ");
    assert_eq!(parse(&text).unwrap().to_string(), text);
}

#[test]
fn sequences_print_in_brackets() {
    let w = Word::Sequence(vec![ident("A"), Word::Num("1".into())]);
    assert_eq!(w.to_string(), "( A 1 )");
    assert_eq!(Ast::from(vec![ident("A")]).words, vec![ident("A")]);
}
