use operations::ast::lexer::{tokenize, Lexer, TextSpan, Token, TokenKind};
use operations::ast::parser::{Ast, ErroAvaliacao, ErroEstrutural, Node, Parser};

fn tokens_de(entrada: &str) -> Vec<Token> {
    let mut lexer = Lexer::new(entrada);
    let mut tokens: Vec<Token> = Vec::new();
    assert!(tokenize(&mut lexer, &mut tokens), "token invalido em {:?}", entrada);
    tokens
}

fn avaliar_expressao(entrada: &str) -> i64 {
    let mut parser = Parser::new(tokens_de(entrada));
    let ast = match parser.parse() {
        Ok(ast) => ast,
        Err(e) => panic!("erro estrutural {:?} em {:?}", e, entrada),
    };
    let mut registros: Vec<String> = Vec::new();
    match ast.eval_step(&mut registros) {
        Ok(v) => v,
        Err(e) => panic!("erro de avaliacao {:?} em {:?}", e, entrada),
    }
}

fn erro_estrutural(entrada: &str) -> ErroEstrutural {
    let mut parser = Parser::new(tokens_de(entrada));
    match parser.parse() {
        Ok(_) => panic!("esperava erro estrutural em {:?}", entrada),
        Err(e) => e,
    }
}

#[test]
fn test_case_1() {
    let mut lexer = Lexer::new("1 + 3");
    let mut tokens = Vec::new();
    assert!(tokenize(&mut lexer, &mut tokens));
    let mut parser = Parser::new(tokens);
    let ast = parser.parse().unwrap();
    let mut registros: Vec<String> = Vec::new();
    let result = ast.eval_step(&mut registros).unwrap();
    assert_eq!(result, 4); // O Resultado esperado eh 4
}

#[test]
fn test_case_2() {
    assert_eq!(avaliar_expressao("1 + 2 * 3"), 7);
}

#[test]
fn test_case_3() {
    assert_eq!(avaliar_expressao("4 / 2 + 7"), 9);
}

#[test]
fn test_case_4() {
    assert_eq!(avaliar_expressao("1 + 2 + 3 * 4"), 15);
}

#[test]
fn test_case_5() {
    assert_eq!(avaliar_expressao("(1 + 2 + 3) * 4"), 24);
}

#[test]
fn test_case_6() {
    assert_eq!(avaliar_expressao("(10 / 3 + 23) * (1 - 4)"), -78);
}

#[test]
fn test_case_7() {
    assert_eq!(avaliar_expressao("((1 + 3) * 8 + 1) / 3"), 11);
}

#[test]
fn test_case_8() {
    assert_eq!(avaliar_expressao("58 - -8 * (58 + 31) - -14"), 784);
}

#[test]
fn test_case_9() {
    assert_eq!(avaliar_expressao("-71 * (-76 * 91 * (10 - 5 - -82) - -79)"), 42714523);
}

#[test]
fn test_case_10() {
    assert_eq!(avaliar_expressao("10 * 20 + 3 * 7 + 2 * 3 + 10 / 3 * 4"), 239);
}

#[test]
fn test_case_11() {
    assert_eq!(avaliar_expressao("(-13 - -73) * (44 - -78 - 77 + 42 - -32)"), 7140);
}

#[test]
fn test_case_12() {
    assert_eq!(avaliar_expressao("-29 * 49 + 47 - 29 + 74 - -85 - -27 + 4 - 28"), -1241);
}

#[test]
fn test_case_13() {
    assert_eq!(avaliar_expressao("-74 - -14 + 42 - -4 + -78 + -50 * -35 * -81 + -41"), -141883);
}

#[test]
fn test_case_14() {
    assert_eq!(avaliar_expressao("80 * -18 * (85 * (-46 + -71) - 12 + 26 - 59) + 84"), 14385684);
}

#[test]
fn test_case_15() {
    assert_eq!(avaliar_expressao("25 + 38 + 88 + (-6 - -73) * (-83 + (53 + 97) * 14)"), 135290);
}

#[test]
fn test_case_16() {
    assert_eq!(avaliar_expressao("(84 - 90) * (-8 - 75 + -83 * (56 - -77) + 4 + -94)"), 67272);
}

#[test]
fn test_case_17() {
    assert_eq!(avaliar_expressao("(54 - -8 - -35 + -68 - -90) * -39 + -43 + -91 * -30"), -1954);
}

#[test]
fn test_case_18() {
    assert_eq!(avaliar_expressao("-13 - -74 + (66 + -57) * -93 * -9 * 77 + 79 - 66 + -53"), 580062);
}

#[test]
fn test_case_19() {
    assert_eq!(
        avaliar_expressao("(-72 - 50 * -74 + -45) * 92 * 21 * 5 * (-13 - 66 - 18)"),
        -3357342660
    );
}

#[test]
fn test_case_20() {
    assert_eq!(avaliar_expressao("-7 - -37 * (90 + 70) - 30 - -44 + -32 - 56 - -48 - -78"), 5965);
}

#[test]
fn test_case_21() {
    assert_eq!(
        avaliar_expressao("65 * -83 - -3 + -20 + 24 - 85 * (-24 + -32) * (61 - 20)"),
        189772
    );
}

#[test]
fn test_case_22() {
    assert_eq!(
        avaliar_expressao("55 * 48 * -44 - -32 + 1 * -80 * -94 - 74 * -53 + -30 + -61"),
        -104777
    );
}

#[test]
fn test_case_23() {
    assert_eq!(
        avaliar_expressao("(-82 * (25 + 62 + 3) - -72 + -65 * -32 * (77 + 12) - -95 + 51)"),
        177958
    );
}

#[test]
fn test_case_24() {
    assert_eq!(
        avaliar_expressao("(2 - 65 - (-24 + -97) * -5 * -61) * (-41 + 85 * 9 * -92 * (75 - 18))"),
        -147799088242
    );
}

#[test]
fn test_case_25() {
    assert_eq!(
        avaliar_expressao("-20 + -51 + 20 + -68 * -11 + -35 * -14 - 95 - 32 + -52 * -23 - -90 * -42"),
        -1524
    );
}

// ---------------------------------------------------------------------------
// Unary negation
// ---------------------------------------------------------------------------

#[test]
fn negacao_de_literal() {
    assert_eq!(avaliar_expressao("-5"), -5);
}

#[test]
fn negacao_de_grupo() {
    assert_eq!(avaliar_expressao("-(2 + 3)"), -5);
}

#[test]
fn negacao_dupla() {
    assert_eq!(avaliar_expressao("- -8"), 8);
}

#[test]
fn negacao_liga_mais_forte_que_soma() {
    assert_eq!(avaliar_expressao("-2 + 3"), 1);
}

// ---------------------------------------------------------------------------
// Parentheses drive evaluation order
// ---------------------------------------------------------------------------

#[test]
fn parenteses_profundos() {
    assert_eq!(avaliar_expressao("((((7))))"), 7);
    assert_eq!(avaliar_expressao("2 * (3 + (4 - (5 + 1)))"), 2);
}

#[test]
fn divisao_trunca_para_zero() {
    assert_eq!(avaliar_expressao("10 / 3"), 3);
    assert_eq!(avaliar_expressao("(0 - 10) / 3"), -3);
    assert_eq!(avaliar_expressao("-10 / 3"), -3);
    assert_eq!(avaliar_expressao("10 / -3"), -3);
}

// ---------------------------------------------------------------------------
// Division by zero
// ---------------------------------------------------------------------------

#[test]
fn divisao_por_zero_simples() {
    let mut parser = Parser::new(tokens_de("1 / 0"));
    let ast = parser.parse().unwrap();
    let mut registros: Vec<String> = Vec::new();
    assert_eq!(ast.eval_step(&mut registros), Err(ErroAvaliacao::DivisaoPorZero(1)));
}

#[test]
fn divisao_por_zero_em_subexpressao() {
    let mut parser = Parser::new(tokens_de("5 + 10 / (3 - 3)"));
    let ast = parser.parse().unwrap();
    let mut registros: Vec<String> = Vec::new();
    assert_eq!(ast.eval_step(&mut registros), Err(ErroAvaliacao::DivisaoPorZero(10)));
}

// ---------------------------------------------------------------------------
// Structural errors
// ---------------------------------------------------------------------------

#[test]
fn operador_sem_operando() {
    assert_eq!(erro_estrutural("+ 3"), ErroEstrutural::OperandoFaltando);
    assert_eq!(erro_estrutural("3 *"), ErroEstrutural::OperandoFaltando);
    assert_eq!(erro_estrutural("1 + * 2"), ErroEstrutural::OperandoFaltando);
}

#[test]
fn parenteses_desequilibrados() {
    assert_eq!(erro_estrutural("(1 + 2"), ErroEstrutural::ParenteseNaoFechado);
    assert_eq!(erro_estrutural("1 + 2)"), ErroEstrutural::ParenteseNaoAberto);
    assert_eq!(erro_estrutural("()"), ErroEstrutural::OperandoFaltando);
}

#[test]
fn operador_faltando() {
    assert_eq!(erro_estrutural("1 2"), ErroEstrutural::OperadorFaltando);
    assert_eq!(erro_estrutural("2 (1 + 1)"), ErroEstrutural::OperadorFaltando);
}

#[test]
fn entrada_vazia_avalia_para_zero() {
    let mut parser = Parser::new(tokens_de("   "));
    let ast = parser.parse().unwrap();
    assert!(ast.raiz().is_none());
    let mut registros: Vec<String> = Vec::new();
    assert_eq!(ast.eval_step(&mut registros), Ok(0));
    assert!(registros.is_empty());
}

// ---------------------------------------------------------------------------
// Lexical rejection
// ---------------------------------------------------------------------------

#[test]
fn caractere_invalido_rejeitado() {
    let mut lexer = Lexer::new("1 + x");
    let mut tokens: Vec<Token> = Vec::new();
    assert!(!tokenize(&mut lexer, &mut tokens));
}

#[test]
fn literal_gigante_rejeitado() {
    let mut lexer = Lexer::new("99999999999999999999");
    let mut tokens: Vec<Token> = Vec::new();
    assert!(!tokenize(&mut lexer, &mut tokens));
}

#[test]
fn maior_literal_aceito() {
    assert_eq!(avaliar_expressao("9223372036854775807 + 0"), i64::MAX);
}

// ---------------------------------------------------------------------------
// Tokens and spans
// ---------------------------------------------------------------------------

#[test]
fn tokens_cobrem_a_entrada() {
    let tokens = tokens_de("12 + (3)");
    let kinds: Vec<TokenKind> = tokens.iter().map(|t| t.kind).collect();
    assert_eq!(
        kinds,
        vec![
            TokenKind::Numero(12),
            TokenKind::Mais,
            TokenKind::ParentesesEsquerdo,
            TokenKind::Numero(3),
            TokenKind::ParentesesDireito,
        ]
    );
    assert_eq!(tokens[0].span.start, 0);
    assert_eq!(tokens[0].span.end, 2);
    assert_eq!(tokens[0].span.literal, "12");
    assert_eq!(tokens[2].span.start, 5);
    assert_eq!(tokens[2].span.literal, "(");
}

#[test]
fn combinar_ordena_e_concatena() {
    let spans = vec![
        TextSpan::new(5, 8, String::from("cde")),
        TextSpan::new(0, 2, String::from("ab")),
        TextSpan::new(2, 5, String::from("xyz")),
    ];
    let combinado = TextSpan::combinar(spans);
    assert_eq!(combinado.start, 0);
    assert_eq!(combinado.end, 8);
    assert_eq!(combinado.literal, "abxyzcde");
}

#[test]
fn span_comprimento_e_literal() {
    let span = TextSpan::new(2, 4, String::from("34"));
    assert_eq!(span.comprimento(), 2);
    assert_eq!(span.literal("0134567"), "34");
    let token = Token::new(TokenKind::Numero(34), span);
    assert_eq!(token.kind, TokenKind::Numero(34));
}

#[test]
fn lexer_emite_fim_de_arquivo_uma_vez() {
    let mut lexer = Lexer::new("7");
    let primeiro = lexer.proximo_token().unwrap();
    assert_eq!(primeiro.kind, TokenKind::Numero(7));
    let fim = lexer.proximo_token().unwrap();
    assert_eq!(fim.kind, TokenKind::FimDeArquivo);
    assert!(lexer.proximo_token().is_none());
}

// ---------------------------------------------------------------------------
// Rendering and the reduction trace
// ---------------------------------------------------------------------------

#[test]
fn para_string_totalmente_parentesizado() {
    let mut parser = Parser::new(tokens_de("1 + 2 * 3"));
    let ast = parser.parse().unwrap();
    let raiz = ast.raiz().unwrap();
    assert_eq!(raiz.para_string(), "(1 + (2 * 3))");
}

#[test]
fn registros_mostram_cada_reducao() {
    let mut parser = Parser::new(tokens_de("1 + 2 * 3"));
    let ast = parser.parse().unwrap();
    let mut registros: Vec<String> = Vec::new();
    assert_eq!(ast.eval_step(&mut registros), Ok(7));
    assert_eq!(registros, vec![String::from("(1 + 6)"), String::from("7")]);
}

#[test]
fn registros_com_irmaos_iguais() {
    // Sibling subtrees with the same rendering: the first replacement takes
    // both occurrences, the later step is skipped, the value is unharmed.
    let mut parser = Parser::new(tokens_de("(1 + 1) * (1 + 1)"));
    let ast = parser.parse().unwrap();
    let mut registros: Vec<String> = Vec::new();
    assert_eq!(ast.eval_step(&mut registros), Ok(4));
    assert_eq!(
        registros,
        vec![String::from("(2 * 2)"), String::from("(2 * 2)"), String::from("4")]
    );
}

#[test]
fn negacao_rendida_como_zero_menos() {
    // Unary negation is folded into `0 - x`, and the rendering shows it.
    let mut parser = Parser::new(tokens_de("-5 + 2"));
    let ast = parser.parse().unwrap();
    assert_eq!(ast.raiz().unwrap().para_string(), "((0 - 5) + 2)");
    let mut registros: Vec<String> = Vec::new();
    assert_eq!(ast.eval_step(&mut registros), Ok(-3));
    assert_eq!(registros, vec![String::from("(-5 + 2)"), String::from("-3")]);
}

#[test]
fn avaliar_com_trilha_propria() {
    let mut parser = Parser::new(tokens_de("2 + 2"));
    let ast = parser.parse().unwrap();
    let raiz = ast.raiz().unwrap();
    let mut arvore = raiz.para_string();
    assert_eq!(arvore, "(2 + 2)");
    let mut registros: Vec<String> = Vec::new();
    assert_eq!(raiz.avaliar(&mut arvore, &mut registros), Ok(4));
    assert_eq!(arvore, "4");
}

// ---------------------------------------------------------------------------
// Overflow is an error, never a wrong value
// ---------------------------------------------------------------------------

#[test]
fn estouro_relatado() {
    let mut parser = Parser::new(tokens_de("9223372036854775807 + 1"));
    let ast = parser.parse().unwrap();
    let mut registros: Vec<String> = Vec::new();
    assert_eq!(ast.eval_step(&mut registros), Err(ErroAvaliacao::Estouro));
}

// ---------------------------------------------------------------------------
// Trees built by hand
// ---------------------------------------------------------------------------

#[test]
fn operador_fora_dos_quatro_rejeitado() {
    // A hand-built node whose operator token is no binary operator.
    let arvore = Ast::nova(Some(Node::BinaryOp {
        op: TokenKind::FimDeArquivo,
        left: Box::new(Node::Numero(1)),
        right: Box::new(Node::Numero(2)),
    }));
    let mut registros: Vec<String> = Vec::new();
    assert_eq!(arvore.eval_step(&mut registros), Err(ErroAvaliacao::OperadorInvalido));
}

#[test]
fn ast_construida_a_mao() {
    let arvore = Ast::nova(Some(Node::BinaryOp {
        op: TokenKind::Menos,
        left: Box::new(Node::Numero(10)),
        right: Box::new(Node::Numero(4)),
    }));
    let mut registros: Vec<String> = Vec::new();
    assert_eq!(arvore.eval_step(&mut registros), Ok(6));
    assert_eq!(registros, vec![String::from("6")]);
}
