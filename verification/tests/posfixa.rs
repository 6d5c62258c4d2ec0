use operations::ast::parser::ErroEstrutural;
use operations::ast::parser2::Tree;

fn tokens(palavras: &[&str]) -> Vec<String> {
    palavras.iter().map(|p| String::from(*p)).collect()
}

#[test]
fn posfixa_simples() {
    let tree = Tree::parse_from_vector(tokens(&["1", "2", "+"])).unwrap();
    assert_eq!(tree.to_string(), "(1 + 2)");
}

#[test]
fn posfixa_aninhada() {
    // 1 2 + 3 * corresponds to (1 + 2) * 3.
    let tree = Tree::parse_from_vector(tokens(&["1", "2", "+", "3", "*"])).unwrap();
    assert_eq!(tree.to_string(), "((1 + 2) * 3)");
}

#[test]
fn posfixa_ordem_dos_operandos() {
    // The first node popped is the right operand.
    let tree = Tree::parse_from_vector(tokens(&["10", "4", "-"])).unwrap();
    assert_eq!(tree.to_string(), "(10 - 4)");
}

#[test]
fn posfixa_folha_unica() {
    let tree = Tree::parse_from_vector(tokens(&["42"])).unwrap();
    assert_eq!(tree.to_string(), "42");
}

#[test]
fn posfixa_operando_faltando() {
    assert!(matches!(
        Tree::parse_from_vector(tokens(&["1", "+"])),
        Err(ErroEstrutural::OperandoFaltando)
    ));
    assert!(matches!(Tree::parse_from_vector(tokens(&[])), Err(ErroEstrutural::OperandoFaltando)));
}

#[test]
fn posfixa_operador_faltando() {
    assert!(matches!(
        Tree::parse_from_vector(tokens(&["1", "2", "3", "+"])),
        Err(ErroEstrutural::OperadorFaltando)
    ));
}
