use rsgbasm::AssemblerError;
use rsgbasm::Assembler;
use rsgbasm::Error;
use rsgbasm::SyntaxError;
use rsgbasm::expression::Expression;
use rsgbasm::lexer::Keyword;
use rsgbasm::lexer::Location;
use rsgbasm::lexer::TokType;
use rsgbasm::lexer::Token;
use rsgbasm::lexer::tokenize;
use rsgbasm::symbol::Symbol;
use rsgbasm::trie::build_keywords;

fn toks(src: &str) -> (Vec<Token>, Vec<(Location, AssemblerError)>) {
    let trie = build_keywords();
    let chars: Vec<char> = src.chars().collect();
    tokenize(&trie, &chars)
}

#[test]
fn ld_is_a_mnemonic_token_in_any_case() {
    for spelling in ["LD", "ld", "Ld", "lD"] {
        let (t, d) = toks(spelling);
        assert!(d.is_empty());
        assert_eq!(t.len(), 1);
        assert_eq!(t[0].tok, TokType::Keyword(Keyword::Ld));
    }
}

#[test]
fn my_label_is_a_generic_identifier() {
    let (t, d) = toks("myLabel");
    assert!(d.is_empty());
    assert_eq!(t.len(), 1);
    assert_eq!(t[0].tok, TokType::Ident(String::from("myLabel")));
}

#[test]
fn identifier_runs_are_maximal() {
    let (t, d) = toks("ldh_var nop");
    assert!(d.is_empty());
    assert_eq!(t.len(), 2);
    assert_eq!(t[0].tok, TokType::Ident(String::from("ldh_var")));
    assert_eq!(t[1].tok, TokType::Keyword(Keyword::Nop));
}

#[test]
fn decimal_and_hex_numbers_decode() {
    let (t, d) = toks("42 $FF $1a");
    assert!(d.is_empty());
    assert_eq!(t.len(), 3);
    assert_eq!(t[0].tok, TokType::Number(42));
    assert_eq!(t[1].tok, TokType::Number(255));
    assert_eq!(t[2].tok, TokType::Number(26));
}

#[test]
fn punctuation_and_shifts() {
    let (t, d) = toks("1 << 3, (2 | 4)");
    assert!(d.is_empty());
    let kinds: Vec<TokType> = t.into_iter().map(|x| x.tok).collect();
    assert_eq!(
        kinds,
        vec![
            TokType::Number(1),
            TokType::ShiftLeft,
            TokType::Number(3),
            TokType::Comma,
            TokType::LParen,
            TokType::Number(2),
            TokType::Pipe,
            TokType::Number(4),
            TokType::RParen,
        ]
    );
}

#[test]
fn string_literals_unescape() {
    let (t, d) = toks("\"hi\\nthere\\\"\"");
    assert!(d.is_empty());
    assert_eq!(t.len(), 1);
    assert_eq!(t[0].tok, TokType::StringLit(String::from("hi\nthere\"")));
}

#[test]
fn empty_hex_is_a_diagnostic() {
    let (t, d) = toks("$ nop");
    assert_eq!(t.len(), 1);
    assert_eq!(d.len(), 1);
    assert_eq!(d[0].1, AssemblerError::EmptyHex);
    assert_eq!(d[0].0.offset, 0);
}

#[test]
fn garbage_char_is_a_diagnostic_and_scan_continues() {
    let (t, d) = toks("~ nop");
    assert_eq!(d.len(), 1);
    assert_eq!(d[0].1, AssemblerError::GarbageChar('~'));
    assert_eq!(t.len(), 1);
    assert_eq!(t[0].tok, TokType::Keyword(Keyword::Nop));
}

#[test]
fn unterminated_string_stops_the_scan() {
    let (_, d) = toks("\"abc");
    assert_eq!(d.len(), 1);
    assert_eq!(d[0].1, AssemblerError::UntermString);
}

#[test]
fn illegal_escape_is_a_diagnostic() {
    let (t, d) = toks("\"a\\qb\"");
    assert_eq!(d.len(), 1);
    assert_eq!(d[0].1, AssemblerError::IllegalEscape('q'));
    assert_eq!(t.len(), 1);
    assert_eq!(t[0].tok, TokType::StringLit(String::from("ab")));
}

#[test]
fn newlines_are_tokens_spaces_are_not() {
    let (t, d) = toks("nop\nnop");
    assert!(d.is_empty());
    let kinds: Vec<TokType> = t.into_iter().map(|x| x.tok).collect();
    assert_eq!(
        kinds,
        vec![
            TokType::Keyword(Keyword::Nop),
            TokType::Newline,
            TokType::Keyword(Keyword::Nop),
        ]
    );
}

/// Drives the symbol table with the token stream of one `NAME EQU VALUE`
/// line, as the parser's semantic action would.
fn run_equ_line(session: &mut Assembler, line: &str) -> Result<(), AssemblerError> {
    let (t, d) = toks(line);
    assert!(d.is_empty());
    assert_eq!(t.len(), 3);
    let name = match &t[0].tok {
        TokType::Ident(s) => s.clone(),
        other => panic!("expected an identifier, got {:?}", other),
    };
    assert_eq!(t[1].tok, TokType::Keyword(Keyword::Equ));
    let value = match t[2].tok {
        TokType::Number(v) => v,
        ref other => panic!("expected a number, got {:?}", other),
    };
    session.add_symbol(Symbol::new_equ(name, value))
}

#[test]
fn equ_twice_with_same_value_succeeds_and_different_value_fails() {
    let mut session = Assembler::new();
    assert_eq!(run_equ_line(&mut session, "X EQU 1"), Ok(()));
    assert_eq!(run_equ_line(&mut session, "X EQU 1"), Ok(()));
    assert_eq!(
        run_equ_line(&mut session, "X EQU 2"),
        Err(AssemblerError::SymbolRedef)
    );
}

#[test]
fn tokenized_expression_evaluates() {
    let (t, d) = toks("1 | 2");
    assert!(d.is_empty());
    let a = match t[0].tok {
        TokType::Number(v) => Expression::from(v),
        ref other => panic!("expected a number, got {:?}", other),
    };
    let b = match t[2].tok {
        TokType::Number(v) => Expression::from(v),
        ref other => panic!("expected a number, got {:?}", other),
    };
    assert_eq!(t[1].tok, TokType::Pipe);
    assert_eq!(a.bitor(b), Expression::Known(3));
}

#[test]
fn token_names_render() {
    assert_eq!(TokType::Keyword(Keyword::Ld).name(), "ld");
    assert_eq!(TokType::Ident(String::from("x")).name(), "identifier");
    assert_eq!(TokType::ShiftLeft.name(), "'<<'");
}

#[test]
fn diagnostic_messages_render() {
    assert_eq!(
        AssemblerError::GarbageChar('~').message(),
        "Garbage char '~'"
    );
    assert_eq!(
        AssemblerError::LocalInMainScope(String::from(".foo")).message(),
        "Local symbol \".foo\" in main scope"
    );
    assert_eq!(AssemblerError::SymbolRedef.message(), "Redefined symbol");
}

#[test]
fn syntax_error_messages_render_the_disjunction() {
    let e = Error::from_syntax(SyntaxError::UnrecognizedToken {
        begin: Location { offset: 0 },
        end: Location { offset: 1 },
        tok: String::from("','"),
        expected: vec![
            String::from("identifier"),
            String::from("number"),
            String::from("'('"),
        ],
    });
    assert_eq!(e.message(), "Unexpected ','; expected identifier, number or '('");

    let e = Error::from_syntax(SyntaxError::UnrecognizedEof {
        location: Location { offset: 4 },
        expected: vec![String::from("newline")],
    });
    assert_eq!(e.message(), "Unexpected EOF; expected newline");

    let e = Error::from_syntax(SyntaxError::ExtraToken {
        begin: Location { offset: 2 },
        end: Location { offset: 3 },
        tok: String::from("number"),
    });
    assert_eq!(e.message(), "Unexpected number; expected no more tokens");

    let e = Error::from_assembler(AssemblerError::ExprNotConstant);
    assert_eq!(e.message(), "Expression is not constant");
}

#[test]
fn escape_at_end_of_input_is_a_diagnostic() {
    let (_, d) = toks("\"a\\");
    assert_eq!(d.len(), 2);
    assert_eq!(d[0].1, AssemblerError::IllegalEscapeEOF);
    assert_eq!(d[1].1, AssemblerError::UntermString);
}

#[test]
fn two_expected_tokens_join_with_or() {
    let e = Error::from_syntax(SyntaxError::UnrecognizedEof {
        location: Location { offset: 0 },
        expected: vec![String::from("identifier"), String::from("number")],
    });
    assert_eq!(e.message(), "Unexpected EOF; expected identifier or number");
}

#[test]
fn huge_number_literals_saturate() {
    let (t, d) = toks("99999999999 nop");
    assert!(d.is_empty());
    assert_eq!(t.len(), 2);
    assert_eq!(t[0].tok, TokType::Number(i32::MAX));
    assert_eq!(t[1].tok, TokType::Keyword(Keyword::Nop));

    let (t, d) = toks("$FFFFFFFFF");
    assert!(d.is_empty());
    assert_eq!(t[0].tok, TokType::Number(i32::MAX));
}

#[test]
fn line_continuation_joins_lines() {
    let (t, d) = toks("nop \\\n nop");
    assert!(d.is_empty());
    let kinds: Vec<TokType> = t.into_iter().map(|x| x.tok).collect();
    assert_eq!(
        kinds,
        vec![TokType::Keyword(Keyword::Nop), TokType::Keyword(Keyword::Nop)]
    );
}

#[test]
fn char_after_line_continuation_is_a_diagnostic() {
    let (_, d) = toks("nop \\x\nnop");
    assert_eq!(d.len(), 1);
    assert_eq!(d[0].1, AssemblerError::CharAfterLineCont('x'));
    assert_eq!(d[0].0.offset, 4);
}

#[test]
fn line_continuation_at_end_of_file_is_a_diagnostic() {
    let (_, d) = toks("nop \\");
    assert_eq!(d.len(), 1);
    assert_eq!(d[0].1, AssemblerError::LineContEOF);
}

#[test]
fn offsets_render_in_decimal() {
    assert_eq!(rsgbasm::lexer::offset_string(0), "0");
    assert_eq!(rsgbasm::lexer::offset_string(7), "7");
    assert_eq!(rsgbasm::lexer::offset_string(150), "150");
    assert_eq!(rsgbasm::lexer::offset_string(40960), "40960");
}

#[test]
fn located_messages_carry_the_position() {
    let e = Error::from_syntax(SyntaxError::UnrecognizedEof {
        location: Location { offset: 42 },
        expected: vec![String::from("newline")],
    });
    assert_eq!(e.located_message(), "at 42: Unexpected EOF; expected newline");

    let e = Error::from_assembler(AssemblerError::SymbolRedef);
    assert_eq!(e.located_message(), "Redefined symbol");
}
