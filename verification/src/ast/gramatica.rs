//! The expression grammar, and the proof that the shunting-yard parser honors
//! it: on every token sequence the grammar derives, the parser builds exactly
//! the grammar's tree — left-associative, precedence-respecting, with
//! parenthesized subexpressions parsed as whole operands and unary negation
//! applied to the operand that follows it.
//!
//! Grammar, over the meaningful token kinds:
//!   expressao ::= termo { ("+" | "-") termo }
//!   termo     ::= fator { ("*" | "/") fator }
//!   fator     ::= numero | "-" fator | "(" expressao ")"

use vstd::prelude::*;
use crate::ast::lexer::TokenKind;
use crate::ast::parser::{
    analisar_sy,
    aplicar_topo,
    avaliar_no,
    avaliar_op,
    estado_inicial,
    executar_sy,
    fechar_parentese,
    finalizar_sy,
    lema_executar_concat,
    lema_executar_um,
    operador_valido,
    passo_sy,
    precedencia_sy,
    precedencia_token,
    reduzir_para,
    EstadoSy,
    ErroAvaliacao,
    ErroEstrutural,
    Node,
    OpEmpilhado,
};

verus! {

// ---------------------------------------------------------------------------
// The grammar as a recursive-descent specification
// ---------------------------------------------------------------------------

/// The arithmetic negation of a tree, written as the parser writes it.
pub open spec fn negar(n: Node) -> Node {
    Node::BinaryOp { op: TokenKind::Menos, left: Box::new(Node::Numero(0)), right: Box::new(n) }
}

/// One binary node.
pub open spec fn binario(op: TokenKind, esquerda: Node, direita: Node) -> Node {
    Node::BinaryOp { op, left: Box::new(esquerda), right: Box::new(direita) }
}

/// fator ::= numero | "-" fator | "(" expressao ")"
pub open spec fn gram_fator(ks: Seq<TokenKind>, i: int) -> Option<(Node, int)>
    decreases ks.len() - i, 0int,
{
    if i < 0 || i >= ks.len() {
        None
    } else {
        match ks[i] {
            TokenKind::Numero(v) => Some((Node::Numero(v), i + 1)),
            TokenKind::Menos => match gram_fator(ks, i + 1) {
                Some((f, j)) => Some((negar(f), j)),
                None => None,
            },
            TokenKind::ParentesesEsquerdo => match gram_expressao(ks, i + 1) {
                Some((e, j)) => if 0 <= j < ks.len() && ks[j] == TokenKind::ParentesesDireito {
                    Some((e, j + 1))
                } else {
                    None
                },
                None => None,
            },
            _ => None,
        }
    }
}

/// termo ::= fator { ("*" | "/") fator }, folded left-associatively.
pub open spec fn gram_termo(ks: Seq<TokenKind>, i: int) -> Option<(Node, int)>
    decreases ks.len() - i, 1int,
{
    match gram_fator(ks, i) {
        Some((f, j)) => if i < j <= ks.len() {
            gram_termo_resto(ks, j, f)
        } else {
            None
        },
        None => None,
    }
}

pub open spec fn gram_termo_resto(ks: Seq<TokenKind>, i: int, acc: Node) -> Option<(Node, int)>
    decreases ks.len() - i, 2int,
{
    if 0 <= i < ks.len() && (ks[i] == TokenKind::Asterisco || ks[i] == TokenKind::Barra) {
        match gram_fator(ks, i + 1) {
            Some((f, j)) => if i + 1 < j <= ks.len() {
                gram_termo_resto(ks, j, binario(ks[i], acc, f))
            } else {
                None
            },
            None => None,
        }
    } else {
        Some((acc, i))
    }
}

/// expressao ::= termo { ("+" | "-") termo }, folded left-associatively.
pub open spec fn gram_expressao(ks: Seq<TokenKind>, i: int) -> Option<(Node, int)>
    decreases ks.len() - i, 3int,
{
    match gram_termo(ks, i) {
        Some((t, j)) => if i < j <= ks.len() {
            gram_expressao_resto(ks, j, t)
        } else {
            None
        },
        None => None,
    }
}

pub open spec fn gram_expressao_resto(ks: Seq<TokenKind>, i: int, acc: Node) -> Option<(Node, int)>
    decreases ks.len() - i, 4int,
{
    if 0 <= i < ks.len() && (ks[i] == TokenKind::Mais || ks[i] == TokenKind::Menos) {
        match gram_termo(ks, i + 1) {
            Some((t, j)) => if i + 1 < j <= ks.len() {
                gram_expressao_resto(ks, j, binario(ks[i], acc, t))
            } else {
                None
            },
            None => None,
        }
    } else {
        Some((acc, i))
    }
}

/// A token sequence is a well-formed expression when the grammar derives it
/// whole.
pub open spec fn bem_formada(ks: Seq<TokenKind>) -> bool {
    exists|t: Node| gram_expressao(ks, 0) == Some((t, ks.len() as int))
}

// ---------------------------------------------------------------------------
// Bounds: every grammar function consumes at least one token
// ---------------------------------------------------------------------------

pub proof fn lema_gram_limites(ks: Seq<TokenKind>, i: int)
    ensures
        (gram_fator(ks, i) matches Some(r) ==> i < r.1 <= ks.len()),
        (gram_termo(ks, i) matches Some(r) ==> i < r.1 <= ks.len()),
        (gram_expressao(ks, i) matches Some(r) ==> i < r.1 <= ks.len()),
    decreases ks.len() - i, 5int,
{
    if 0 <= i < ks.len() {
        match ks[i] {
            TokenKind::Menos => {
                lema_gram_limites(ks, i + 1);
            },
            TokenKind::ParentesesEsquerdo => {
                lema_gram_limites(ks, i + 1);
            },
            _ => {},
        }
        assert((gram_fator(ks, i) matches Some(r) ==> i < r.1 <= ks.len()));
        match gram_fator(ks, i) {
            Some((f, j)) => {
                if i < j <= ks.len() {
                    lema_gram_resto_limites(ks, j);
                }
            },
            None => {},
        }
        match gram_fator(ks, i) {
            Some((f, j)) => {
                if i < j <= ks.len() {
                    assert(gram_termo(ks, i) == gram_termo_resto(ks, j, f));
                    assert(gram_termo_resto(ks, j, f) is Some ==> j <= gram_termo_resto(
                        ks,
                        j,
                        f,
                    )->Some_0.1 <= ks.len());
                } else {
                    assert(gram_termo(ks, i) is None);
                }
            },
            None => {
                assert(gram_termo(ks, i) is None);
            },
        }
        assert((gram_termo(ks, i) matches Some(r) ==> i < r.1 <= ks.len()));
        match gram_termo(ks, i) {
            Some((t, j)) => {
                if i < j <= ks.len() {
                    lema_gram_resto_limites(ks, j);
                    assert(gram_expressao(ks, i) == gram_expressao_resto(ks, j, t));
                    assert(gram_expressao_resto(ks, j, t) is Some ==> j <= gram_expressao_resto(
                        ks,
                        j,
                        t,
                    )->Some_0.1 <= ks.len());
                } else {
                    assert(gram_expressao(ks, i) is None);
                }
            },
            None => {
                assert(gram_expressao(ks, i) is None);
            },
        }
        assert((gram_expressao(ks, i) matches Some(r) ==> i < r.1 <= ks.len()));
    }
}

// ---------------------------------------------------------------------------
// States and reductions
// ---------------------------------------------------------------------------

/// Every stacked binary operator is one of the four.
pub open spec fn operadores_proprios(ops: Seq<OpEmpilhado>) -> bool {
    forall|k: int|
        0 <= k < ops.len() ==> ((#[trigger] ops[k]) matches OpEmpilhado::Binario(tk)
            ==> operador_valido(tk))
}

/// Reductions for precedence `p` stop at this stack top.
pub open spec fn barreira(st: EstadoSy, p: int) -> bool {
    ||| st.operadores.len() == 0
    ||| st.operadores.last() is Parentese
    ||| precedencia_sy(st.operadores.last()) < p
}

/// `m` pending unary negations.
pub open spec fn repetir_negs(m: int) -> Seq<OpEmpilhado>
    decreases m,
{
    if m <= 0 {
        seq![]
    } else {
        repetir_negs(m - 1).push(OpEmpilhado::NegacaoUnaria)
    }
}

/// `m` negations applied around a tree.
pub open spec fn aplicar_negs(n: Node, m: int) -> Node
    decreases m,
{
    if m <= 0 {
        n
    } else {
        negar(aplicar_negs(n, m - 1))
    }
}

/// The parser's state right after the tokens of a factor: the factor's core
/// pushed on the output, its leading negations still pending on the stack.
pub open spec fn estado_apos_fator(st: EstadoSy, c: Node, m: int) -> EstadoSy {
    EstadoSy {
        saida: st.saida.push(c),
        operadores: st.operadores + repetir_negs(m),
        espera_operando: false,
    }
}

proof fn lema_negs_propriedades(m: int)
    ensures
        repetir_negs(m).len() == if m <= 0 {
            0int
        } else {
            m
        },
        forall|k: int|
            0 <= k < repetir_negs(m).len() ==> repetir_negs(m)[k] == OpEmpilhado::NegacaoUnaria,
    decreases m,
{
    if m > 0 {
        lema_negs_propriedades(m - 1);
        assert(forall|k: int|
            0 <= k < repetir_negs(m).len() ==> repetir_negs(m)[k]
                == OpEmpilhado::NegacaoUnaria) by {
            assert(repetir_negs(m) == repetir_negs(m - 1).push(OpEmpilhado::NegacaoUnaria));
        }
    }
}

proof fn lema_negs_comutam(n: Node, m: int)
    ensures
        aplicar_negs(negar(n), m) == negar(aplicar_negs(n, m)),
    decreases m,
{
    if m > 0 {
        lema_negs_comutam(n, m - 1);
    }
}

/// What holds of a finished reduction: it stopped at a barrier, kept the
/// expectation flag, and kept the operator stack proper.
proof fn lema_reduzir_fatos(st: EstadoSy, p: int)
    ensures
        barreira(reduzir_para(st, p), p),
        reduzir_para(st, p).espera_operando == st.espera_operando,
        operadores_proprios(st.operadores) ==> operadores_proprios(
            reduzir_para(st, p).operadores,
        ),
    decreases st.operadores.len(),
{
    if st.operadores.len() > 0 && !(st.operadores.last() is Parentese) && precedencia_sy(
        st.operadores.last(),
    ) >= p {
        assert(aplicar_topo(st).operadores == st.operadores.drop_last());
        assert(operadores_proprios(st.operadores) ==> operadores_proprios(
            st.operadores.drop_last(),
        ));
        lema_reduzir_fatos(aplicar_topo(st), p);
    }
}

/// Reducing for a lower precedence continues where a higher one stopped.
proof fn lema_reduzir_compor(st: EstadoSy, p: int, q: int)
    requires
        p <= q,
    ensures
        reduzir_para(st, p) == reduzir_para(reduzir_para(st, q), p),
    decreases st.operadores.len(),
{
    if st.operadores.len() > 0 && !(st.operadores.last() is Parentese) && precedencia_sy(
        st.operadores.last(),
    ) >= q {
        assert(aplicar_topo(st).operadores == st.operadores.drop_last());
        lema_reduzir_compor(aplicar_topo(st), p, q);
    }
}

/// Pending negations reduce onto the node below them, innermost first.
proof fn lema_reduzir_negs(st: EstadoSy, c: Node, m: int, p: int)
    requires
        0 <= m,
        p <= 3,
    ensures
        reduzir_para(estado_apos_fator(st, c, m), p) == reduzir_para(
            EstadoSy {
                saida: st.saida.push(aplicar_negs(c, m)),
                operadores: st.operadores,
                espera_operando: false,
            },
            p,
        ),
    decreases m,
{
    lema_negs_propriedades(m);
    if m <= 0 {
        assert(st.operadores + repetir_negs(0) =~= st.operadores);
    } else {
        lema_negs_propriedades(m - 1);
        let antes = estado_apos_fator(st, c, m);
        assert(antes.operadores.len() > 0);
        assert(antes.operadores.last() == OpEmpilhado::NegacaoUnaria);
        assert(antes.saida.len() >= 1);
        assert(aplicar_topo(antes) == estado_apos_fator(st, negar(c), m - 1)) by {
            assert(antes.operadores.drop_last() =~= st.operadores + repetir_negs(m - 1));
            assert(antes.saida.drop_last() =~= st.saida);
            assert(antes.saida.last() == c);
            assert(antes.saida.drop_last().push(negar(c)) =~= st.saida.push(negar(c)));
        }
        assert(reduzir_para(antes, p) == reduzir_para(estado_apos_fator(st, negar(c), m - 1), p));
        lema_reduzir_negs(st, negar(c), m - 1, p);
        lema_negs_comutam(c, m - 1);
        assert(aplicar_negs(negar(c), m - 1) == aplicar_negs(c, m));
    }
}

/// Closing a parenthesis is the precedence-1 reduction followed by dropping
/// the marker; with no marker left the parentheses do not balance.
proof fn lema_fechar_via_reduzir(st: EstadoSy)
    requires
        operadores_proprios(st.operadores),
    ensures
        ({
            let r = reduzir_para(st, 1);
            &&& (r.operadores.len() > 0 && r.operadores.last() is Parentese ==> fechar_parentese(
                st,
            ) == Ok::<EstadoSy, ErroEstrutural>(
                EstadoSy {
                    saida: r.saida,
                    operadores: r.operadores.drop_last(),
                    espera_operando: r.espera_operando,
                },
            ))
            &&& (r.operadores.len() == 0 ==> fechar_parentese(st) == Err::<
                EstadoSy,
                ErroEstrutural,
            >(ErroEstrutural::ParenteseNaoAberto))
        }),
    decreases st.operadores.len(),
{
    if st.operadores.len() == 0 {
    } else if st.operadores.last() is Parentese {
    } else {
        assert(precedencia_sy(st.operadores.last()) >= 1);
        assert(aplicar_topo(st).operadores == st.operadores.drop_last());
        assert(operadores_proprios(st.operadores.drop_last()));
        lema_fechar_via_reduzir(aplicar_topo(st));
    }
}

/// Draining the stack at the end of the input is the precedence-1 reduction;
/// when no parenthesis marker is left, exactly the root must remain.
proof fn lema_finalizar_via_reduzir(st: EstadoSy)
    requires
        operadores_proprios(st.operadores),
        !st.espera_operando,
    ensures
        ({
            let r = reduzir_para(st, 1);
            r.operadores.len() == 0 ==> finalizar_sy(st) == (if r.saida.len() == 1 {
                Ok::<Option<Node>, ErroEstrutural>(Some(r.saida[0]))
            } else {
                Err::<Option<Node>, ErroEstrutural>(ErroEstrutural::OperandoFaltando)
            })
        }),
    decreases st.operadores.len(),
{
    if st.operadores.len() == 0 {
    } else if st.operadores.last() is Parentese {
    } else {
        assert(precedencia_sy(st.operadores.last()) >= 1);
        assert(aplicar_topo(st).operadores == st.operadores.drop_last());
        assert(operadores_proprios(st.operadores.drop_last()));
        assert(!aplicar_topo(st).espera_operando);
        lema_finalizar_via_reduzir(aplicar_topo(st));
    }
}

pub proof fn lema_gram_resto_limites(ks: Seq<TokenKind>, i: int)
    requires
        i <= ks.len(),
    ensures
        forall|acc: Node|
            (#[trigger] gram_termo_resto(ks, i, acc)) is Some ==> i <= gram_termo_resto(
                ks,
                i,
                acc,
            )->Some_0.1 <= ks.len(),
        forall|acc: Node|
            (#[trigger] gram_expressao_resto(ks, i, acc)) is Some ==> i <= gram_expressao_resto(
                ks,
                i,
                acc,
            )->Some_0.1 <= ks.len(),
    decreases ks.len() - i, 6int,
{
    if 0 <= i < ks.len() {
        lema_gram_limites(ks, i + 1);
        if ks[i] == TokenKind::Asterisco || ks[i] == TokenKind::Barra || ks[i] == TokenKind::Mais
            || ks[i] == TokenKind::Menos {
            match gram_fator(ks, i + 1) {
                Some((f, j)) => {
                    if i + 1 < j <= ks.len() {
                        lema_gram_resto_limites(ks, j);
                    }
                },
                None => {},
            }
            match gram_termo(ks, i + 1) {
                Some((t, j)) => {
                    if i + 1 < j <= ks.len() {
                        lema_gram_resto_limites(ks, j);
                    }
                },
                None => {},
            }
        }
    }
    assert forall|acc: Node|
        (#[trigger] gram_termo_resto(ks, i, acc)) is Some implies i <= gram_termo_resto(
        ks,
        i,
        acc,
    )->Some_0.1 <= ks.len() by {
        if 0 <= i < ks.len() && (ks[i] == TokenKind::Asterisco || ks[i] == TokenKind::Barra) {
            match gram_fator(ks, i + 1) {
                Some((f, j)) => {
                    if i + 1 < j <= ks.len() {
                        assert(gram_termo_resto(ks, i, acc) == gram_termo_resto(
                            ks,
                            j,
                            binario(ks[i], acc, f),
                        ));
                    }
                },
                None => {},
            }
        }
    }
    assert forall|acc: Node|
        (#[trigger] gram_expressao_resto(ks, i, acc)) is Some implies i <= gram_expressao_resto(
        ks,
        i,
        acc,
    )->Some_0.1 <= ks.len() by {
        if 0 <= i < ks.len() && (ks[i] == TokenKind::Mais || ks[i] == TokenKind::Menos) {
            match gram_termo(ks, i + 1) {
                Some((t, j)) => {
                    if i + 1 < j <= ks.len() {
                        assert(gram_expressao_resto(ks, i, acc) == gram_expressao_resto(
                            ks,
                            j,
                            binario(ks[i], acc, t),
                        ));
                    }
                },
                None => {},
            }
        }
    }
}

// ---------------------------------------------------------------------------
// The simulation: the shunting-yard run tracks the grammar derivation
// ---------------------------------------------------------------------------

/// After the tokens of a factor, the parser holds the factor's core on the
/// output stack with its leading negations pending.
proof fn lema_sy_fator(ks: Seq<TokenKind>, i: int, f: Node, j: int, st: EstadoSy)
    requires
        gram_fator(ks, i) == Some((f, j)),
        st.espera_operando,
        operadores_proprios(st.operadores),
    ensures
        exists|c: Node, m: int|
            (0 <= m && aplicar_negs(c, m) == f && executar_sy(ks.subrange(i, j), st) == Ok::<
                EstadoSy,
                ErroEstrutural,
            >(#[trigger] estado_apos_fator(st, c, m))),
    decreases ks.len() - i, 0int,
{
    lema_gram_limites(ks, i);
    match ks[i] {
        TokenKind::Numero(v) => {
            assert(ks.subrange(i, j) =~= seq![ks[i]]);
            lema_executar_um(ks[i], st);
            assert(st.operadores + repetir_negs(0) =~= st.operadores);
            assert(0 <= 0 && aplicar_negs(Node::Numero(v), 0) == f && executar_sy(
                ks.subrange(i, j),
                st,
            ) == Ok::<EstadoSy, ErroEstrutural>(estado_apos_fator(st, Node::Numero(v), 0)));
        },
        TokenKind::Menos => {
            let (f2, j2) = gram_fator(ks, i + 1)->Some_0;
            lema_gram_limites(ks, i + 1);
            let st1 = EstadoSy {
                saida: st.saida,
                operadores: st.operadores.push(OpEmpilhado::NegacaoUnaria),
                espera_operando: true,
            };
            assert(passo_sy(st, ks[i]) == Ok::<EstadoSy, ErroEstrutural>(st1));
            assert(operadores_proprios(st1.operadores)) by {
                assert(forall|k: int|
                    0 <= k < st.operadores.len() ==> st1.operadores[k] == st.operadores[k]);
            }
            lema_sy_fator(ks, i + 1, f2, j2, st1);
            let (c, m) = choose|c: Node, m: int|
                (0 <= m && aplicar_negs(c, m) == f2 && executar_sy(ks.subrange(i + 1, j2), st1)
                    == Ok::<EstadoSy, ErroEstrutural>(#[trigger] estado_apos_fator(st1, c, m)));
            assert(ks.subrange(i, j) =~= seq![ks[i]] + ks.subrange(i + 1, j));
            lema_executar_um(ks[i], st);
            lema_executar_concat(seq![ks[i]], ks.subrange(i + 1, j), st);
            assert(estado_apos_fator(st1, c, m) == estado_apos_fator(st, c, m + 1)) by {
                lema_negs_propriedades(m);
                lema_negs_propriedades(m + 1);
                assert(st1.operadores + repetir_negs(m) =~= st.operadores + repetir_negs(m + 1));
            }
            assert(aplicar_negs(c, m + 1) == negar(aplicar_negs(c, m)));
            assert(0 <= m + 1 && aplicar_negs(c, m + 1) == f && executar_sy(ks.subrange(i, j), st)
                == Ok::<EstadoSy, ErroEstrutural>(estado_apos_fator(st, c, m + 1)));
        },
        TokenKind::ParentesesEsquerdo => {
            let (e, j2) = gram_expressao(ks, i + 1)->Some_0;
            lema_gram_limites(ks, i + 1);
            let st1 = EstadoSy {
                saida: st.saida,
                operadores: st.operadores.push(OpEmpilhado::Parentese),
                espera_operando: true,
            };
            assert(passo_sy(st, ks[i]) == Ok::<EstadoSy, ErroEstrutural>(st1));
            assert(operadores_proprios(st1.operadores)) by {
                assert(forall|k: int|
                    0 <= k < st.operadores.len() ==> st1.operadores[k] == st.operadores[k]);
            }
            assert(barreira(st1, 1));
            lema_sy_expressao(ks, i + 1, e, j2, st1);
            let st_e = executar_sy(ks.subrange(i + 1, j2), st1)->Ok_0;
            let alvo = EstadoSy {
                saida: st.saida.push(e),
                operadores: st1.operadores,
                espera_operando: false,
            };
            assert(reduzir_para(st_e, 1) == alvo);
            lema_fechar_via_reduzir(st_e);
            assert(alvo.operadores.last() is Parentese);
            let depois = EstadoSy {
                saida: st.saida.push(e),
                operadores: st1.operadores.drop_last(),
                espera_operando: false,
            };
            assert(fechar_parentese(st_e) == Ok::<EstadoSy, ErroEstrutural>(depois));
            assert(passo_sy(st_e, TokenKind::ParentesesDireito) == Ok::<EstadoSy, ErroEstrutural>(
                depois,
            ));
            assert(depois == estado_apos_fator(st, e, 0)) by {
                assert(st1.operadores.drop_last() =~= st.operadores);
                assert(st.operadores + repetir_negs(0) =~= st.operadores);
            }
            assert(ks.subrange(i, j) =~= seq![ks[i]] + (ks.subrange(i + 1, j2) + seq![ks[j2]]));
            lema_executar_um(ks[i], st);
            lema_executar_concat(seq![ks[i]], ks.subrange(i + 1, j2) + seq![ks[j2]], st);
            lema_executar_concat(ks.subrange(i + 1, j2), seq![ks[j2]], st1);
            lema_executar_um(ks[j2], st_e);
            assert(executar_sy(ks.subrange(i, j), st) == Ok::<EstadoSy, ErroEstrutural>(depois));
            assert(0 <= 0 && aplicar_negs(e, 0) == f && executar_sy(ks.subrange(i, j), st) == Ok::<
                EstadoSy,
                ErroEstrutural,
            >(estado_apos_fator(st, e, 0)));
        },
        _ => {},
    }
}

/// After the tokens of a term, reducing for `*`-level precedence leaves the
/// term's tree alone on top, the stack below untouched.
proof fn lema_sy_termo(ks: Seq<TokenKind>, i: int, t: Node, j: int, st: EstadoSy)
    requires
        gram_termo(ks, i) == Some((t, j)),
        st.espera_operando,
        operadores_proprios(st.operadores),
        barreira(st, 2),
    ensures
        ({
            let r = executar_sy(ks.subrange(i, j), st);
            &&& r is Ok
            &&& r->Ok_0.espera_operando == false
            &&& operadores_proprios(r->Ok_0.operadores)
            &&& reduzir_para(r->Ok_0, 2) == (EstadoSy {
                saida: st.saida.push(t),
                operadores: st.operadores,
                espera_operando: false,
            })
        }),
    decreases ks.len() - i, 1int,
{
    lema_gram_limites(ks, i);
    let (f, jf) = gram_fator(ks, i)->Some_0;
    lema_gram_resto_limites(ks, jf);
    lema_sy_fator(ks, i, f, jf, st);
    let (c, m) = choose|c: Node, m: int|
        (0 <= m && aplicar_negs(c, m) == f && executar_sy(ks.subrange(i, jf), st) == Ok::<
            EstadoSy,
            ErroEstrutural,
        >(#[trigger] estado_apos_fator(st, c, m)));
    let st_f = estado_apos_fator(st, c, m);
    lema_reduzir_negs(st, c, m, 2);
    let plano = EstadoSy {
        saida: st.saida.push(f),
        operadores: st.operadores,
        espera_operando: false,
    };
    assert(reduzir_para(plano, 2) == plano);
    assert(reduzir_para(st_f, 2) == plano);
    assert(operadores_proprios(st_f.operadores)) by {
        lema_negs_propriedades(m);
        assert(forall|k: int|
            0 <= k < st.operadores.len() ==> st_f.operadores[k] == st.operadores[k]);
        assert(forall|k: int|
            st.operadores.len() <= k < st_f.operadores.len() ==> st_f.operadores[k]
                == OpEmpilhado::NegacaoUnaria);
    }
    lema_sy_termo_resto(ks, jf, f, t, j, st_f, st.saida, st.operadores);
    assert(ks.subrange(i, j) =~= ks.subrange(i, jf) + ks.subrange(jf, j));
    lema_executar_concat(ks.subrange(i, jf), ks.subrange(jf, j), st);
}

proof fn lema_sy_termo_resto(
    ks: Seq<TokenKind>,
    i: int,
    acc: Node,
    t: Node,
    j: int,
    st_c: EstadoSy,
    base: Seq<Node>,
    resto_ops: Seq<OpEmpilhado>,
)
    requires
        gram_termo_resto(ks, i, acc) == Some((t, j)),
        0 <= i <= ks.len(),
        !st_c.espera_operando,
        operadores_proprios(st_c.operadores),
        reduzir_para(st_c, 2) == (EstadoSy {
            saida: base.push(acc),
            operadores: resto_ops,
            espera_operando: false,
        }),
    ensures
        ({
            let r = executar_sy(ks.subrange(i, j), st_c);
            &&& r is Ok
            &&& r->Ok_0.espera_operando == false
            &&& operadores_proprios(r->Ok_0.operadores)
            &&& reduzir_para(r->Ok_0, 2) == (EstadoSy {
                saida: base.push(t),
                operadores: resto_ops,
                espera_operando: false,
            })
        }),
    decreases ks.len() - i, 2int,
{
    lema_reduzir_fatos(st_c, 2);
    let reduzido = EstadoSy { saida: base.push(acc), operadores: resto_ops, espera_operando: false };
    assert(barreira(reduzido, 2));
    assert(operadores_proprios(resto_ops));
    if 0 <= i < ks.len() && (ks[i] == TokenKind::Asterisco || ks[i] == TokenKind::Barra) {
        let (f, jf) = gram_fator(ks, i + 1)->Some_0;
        lema_gram_limites(ks, i + 1);
        lema_gram_resto_limites(ks, jf);
        let op = ks[i];
        let st_d = EstadoSy {
            saida: base.push(acc),
            operadores: resto_ops.push(OpEmpilhado::Binario(op)),
            espera_operando: true,
        };
        assert(precedencia_token(op) == 2);
        assert(passo_sy(st_c, op) == Ok::<EstadoSy, ErroEstrutural>(st_d));
        assert(operadores_proprios(st_d.operadores)) by {
            assert(forall|k: int|
                0 <= k < resto_ops.len() ==> st_d.operadores[k] == resto_ops[k]);
        }
        lema_sy_fator(ks, i + 1, f, jf, st_d);
        let (c, m) = choose|c: Node, m: int|
            (0 <= m && aplicar_negs(c, m) == f && executar_sy(ks.subrange(i + 1, jf), st_d) == Ok::<
                EstadoSy,
                ErroEstrutural,
            >(#[trigger] estado_apos_fator(st_d, c, m)));
        let st_f = estado_apos_fator(st_d, c, m);
        let acc2 = binario(op, acc, f);
        lema_reduzir_negs(st_d, c, m, 2);
        let plano = EstadoSy {
            saida: st_d.saida.push(f),
            operadores: st_d.operadores,
            espera_operando: false,
        };
        let combinado = EstadoSy {
            saida: base.push(acc2),
            operadores: resto_ops,
            espera_operando: false,
        };
        assert(aplicar_topo(plano) == combinado) by {
            assert(plano.operadores.last() == OpEmpilhado::Binario(op));
            assert(plano.saida.len() >= 2);
            assert(plano.saida.last() == f);
            assert(plano.saida[plano.saida.len() - 2] == acc);
            assert(plano.operadores.drop_last() =~= resto_ops);
            assert(plano.saida.drop_last().drop_last() =~= base);
        }
        assert(reduzir_para(plano, 2) == reduzir_para(combinado, 2));
        assert(reduzir_para(combinado, 2) == combinado);
        assert(reduzir_para(st_f, 2) == combinado);
        assert(operadores_proprios(st_f.operadores)) by {
            lema_negs_propriedades(m);
            assert(forall|k: int|
                0 <= k < st_d.operadores.len() ==> st_f.operadores[k] == st_d.operadores[k]);
            assert(forall|k: int|
                st_d.operadores.len() <= k < st_f.operadores.len() ==> st_f.operadores[k]
                    == OpEmpilhado::NegacaoUnaria);
        }
        lema_sy_termo_resto(ks, jf, acc2, t, j, st_f, base, resto_ops);
        assert(ks.subrange(i, j) =~= seq![op] + (ks.subrange(i + 1, jf) + ks.subrange(jf, j)));
        lema_executar_um(op, st_c);
        lema_executar_concat(seq![op], ks.subrange(i + 1, jf) + ks.subrange(jf, j), st_c);
        lema_executar_concat(ks.subrange(i + 1, jf), ks.subrange(jf, j), st_d);
    } else {
        assert(t == acc && j == i);
        assert(ks.subrange(i, i) =~= Seq::<TokenKind>::empty());
        assert(executar_sy(ks.subrange(i, j), st_c) == Ok::<EstadoSy, ErroEstrutural>(st_c));
    }
}

/// After the tokens of an expression, reducing for `+`-level precedence
/// leaves the expression's tree alone on top, the stack below untouched.
proof fn lema_sy_expressao(ks: Seq<TokenKind>, i: int, e: Node, j: int, st: EstadoSy)
    requires
        gram_expressao(ks, i) == Some((e, j)),
        st.espera_operando,
        operadores_proprios(st.operadores),
        barreira(st, 1),
    ensures
        ({
            let r = executar_sy(ks.subrange(i, j), st);
            &&& r is Ok
            &&& r->Ok_0.espera_operando == false
            &&& operadores_proprios(r->Ok_0.operadores)
            &&& reduzir_para(r->Ok_0, 1) == (EstadoSy {
                saida: st.saida.push(e),
                operadores: st.operadores,
                espera_operando: false,
            })
        }),
    decreases ks.len() - i, 3int,
{
    lema_gram_limites(ks, i);
    let (t, jt) = gram_termo(ks, i)->Some_0;
    lema_gram_resto_limites(ks, jt);
    assert(barreira(st, 2));
    lema_sy_termo(ks, i, t, jt, st);
    let st_t = executar_sy(ks.subrange(i, jt), st)->Ok_0;
    let plano = EstadoSy {
        saida: st.saida.push(t),
        operadores: st.operadores,
        espera_operando: false,
    };
    lema_reduzir_compor(st_t, 1, 2);
    assert(reduzir_para(plano, 1) == plano);
    assert(reduzir_para(st_t, 1) == plano);
    lema_sy_expressao_resto(ks, jt, t, e, j, st_t, st.saida, st.operadores);
    assert(ks.subrange(i, j) =~= ks.subrange(i, jt) + ks.subrange(jt, j));
    lema_executar_concat(ks.subrange(i, jt), ks.subrange(jt, j), st);
}

proof fn lema_sy_expressao_resto(
    ks: Seq<TokenKind>,
    i: int,
    acc: Node,
    e: Node,
    j: int,
    st_c: EstadoSy,
    base: Seq<Node>,
    resto_ops: Seq<OpEmpilhado>,
)
    requires
        gram_expressao_resto(ks, i, acc) == Some((e, j)),
        0 <= i <= ks.len(),
        !st_c.espera_operando,
        operadores_proprios(st_c.operadores),
        reduzir_para(st_c, 1) == (EstadoSy {
            saida: base.push(acc),
            operadores: resto_ops,
            espera_operando: false,
        }),
    ensures
        ({
            let r = executar_sy(ks.subrange(i, j), st_c);
            &&& r is Ok
            &&& r->Ok_0.espera_operando == false
            &&& operadores_proprios(r->Ok_0.operadores)
            &&& reduzir_para(r->Ok_0, 1) == (EstadoSy {
                saida: base.push(e),
                operadores: resto_ops,
                espera_operando: false,
            })
        }),
    decreases ks.len() - i, 4int,
{
    lema_reduzir_fatos(st_c, 1);
    let reduzido = EstadoSy { saida: base.push(acc), operadores: resto_ops, espera_operando: false };
    assert(barreira(reduzido, 1));
    assert(operadores_proprios(resto_ops));
    if 0 <= i < ks.len() && (ks[i] == TokenKind::Mais || ks[i] == TokenKind::Menos) {
        let (t, jt) = gram_termo(ks, i + 1)->Some_0;
        lema_gram_limites(ks, i + 1);
        lema_gram_resto_limites(ks, jt);
        let op = ks[i];
        let st_d = EstadoSy {
            saida: base.push(acc),
            operadores: resto_ops.push(OpEmpilhado::Binario(op)),
            espera_operando: true,
        };
        assert(precedencia_token(op) == 1);
        assert(passo_sy(st_c, op) == Ok::<EstadoSy, ErroEstrutural>(st_d));
        assert(operadores_proprios(st_d.operadores)) by {
            assert(forall|k: int|
                0 <= k < resto_ops.len() ==> st_d.operadores[k] == resto_ops[k]);
        }
        assert(barreira(st_d, 2));
        lema_sy_termo(ks, i + 1, t, jt, st_d);
        let st_t = executar_sy(ks.subrange(i + 1, jt), st_d)->Ok_0;
        let plano = EstadoSy {
            saida: st_d.saida.push(t),
            operadores: st_d.operadores,
            espera_operando: false,
        };
        let acc2 = binario(op, acc, t);
        let combinado = EstadoSy {
            saida: base.push(acc2),
            operadores: resto_ops,
            espera_operando: false,
        };
        lema_reduzir_compor(st_t, 1, 2);
        assert(aplicar_topo(plano) == combinado) by {
            assert(plano.operadores.last() == OpEmpilhado::Binario(op));
            assert(plano.saida.len() >= 2);
            assert(plano.saida.last() == t);
            assert(plano.saida[plano.saida.len() - 2] == acc);
            assert(plano.operadores.drop_last() =~= resto_ops);
            assert(plano.saida.drop_last().drop_last() =~= base);
        }
        assert(reduzir_para(plano, 1) == reduzir_para(combinado, 1));
        assert(reduzir_para(combinado, 1) == combinado);
        assert(reduzir_para(st_t, 1) == combinado);
        lema_sy_expressao_resto(ks, jt, acc2, e, j, st_t, base, resto_ops);
        assert(ks.subrange(i, j) =~= seq![op] + (ks.subrange(i + 1, jt) + ks.subrange(jt, j)));
        lema_executar_um(op, st_c);
        lema_executar_concat(seq![op], ks.subrange(i + 1, jt) + ks.subrange(jt, j), st_c);
        lema_executar_concat(ks.subrange(i + 1, jt), ks.subrange(jt, j), st_d);
    } else {
        assert(e == acc && j == i);
        assert(ks.subrange(i, i) =~= Seq::<TokenKind>::empty());
        assert(executar_sy(ks.subrange(i, j), st_c) == Ok::<EstadoSy, ErroEstrutural>(st_c));
    }
}

// ---------------------------------------------------------------------------
// The laws
// ---------------------------------------------------------------------------

/// For every token sequence the grammar derives whole, the shunting-yard
/// parse yields exactly the grammar's tree: precedence-respecting and
/// left-associative evaluation order, as the grammar writes it down.
pub proof fn lema_gramatica_respeitada(ks: Seq<TokenKind>, t: Node)
    requires
        gram_expressao(ks, 0) == Some((t, ks.len() as int)),
    ensures
        analisar_sy(ks) == Ok::<Option<Node>, ErroEstrutural>(Some(t)),
{
    let inicial = estado_inicial();
    assert(operadores_proprios(inicial.operadores));
    assert(barreira(inicial, 1));
    lema_sy_expressao(ks, 0, t, ks.len() as int, inicial);
    assert(ks.subrange(0, ks.len() as int) =~= ks);
    let st_e = executar_sy(ks, inicial)->Ok_0;
    let alvo = EstadoSy {
        saida: inicial.saida.push(t),
        operadores: inicial.operadores,
        espera_operando: false,
    };
    assert(reduzir_para(st_e, 1) == alvo);
    lema_finalizar_via_reduzir(st_e);
    assert(alvo.operadores.len() == 0);
    assert(alvo.saida.len() == 1 && alvo.saida[0] == t);
    assert(finalizar_sy(st_e) == Ok::<Option<Node>, ErroEstrutural>(Some(t)));
}

/// The pipeline on a well-formed token sequence: the parser yields exactly
/// the grammar's tree, and evaluating that tree — with whatever trace text
/// and snapshots — computes its plain value.
pub proof fn lema_pipeline_correto(ks: Seq<TokenKind>, t: Node)
    requires
        gram_expressao(ks, 0) == Some((t, ks.len() as int)),
    ensures
        analisar_sy(ks) == Ok::<Option<Node>, ErroEstrutural>(Some(t)),
        forall|texto: Seq<char>, registros: Seq<Seq<char>>|
            (#[trigger] crate::ast::parser::passo_avaliar(t, texto, registros)).valor
                == avaliar_no(t),
{
    lema_gramatica_respeitada(ks, t);
    assert forall|texto: Seq<char>, registros: Seq<Seq<char>>|
        (#[trigger] crate::ast::parser::passo_avaliar(t, texto, registros)).valor == avaliar_no(
        t,
    ) by {
        crate::ast::parser::lema_valor_independente_da_trilha(t, texto, registros);
    }
}

/// Unary negation evaluates as the arithmetic negation of the operand that
/// follows it: the value of `- n` is minus the value of `n`, with the one
/// `i64` boundary case reported as overflow, and an operand's error passed
/// through.
pub proof fn lema_negacao(n: Node)
    ensures
        (avaliar_no(n) matches Ok(v) ==> avaliar_no(negar(n)) == (if v == i64::MIN {
            Err::<i64, ErroAvaliacao>(ErroAvaliacao::Estouro)
        } else {
            Ok::<i64, ErroAvaliacao>((-(v as int)) as i64)
        })),
        (avaliar_no(n) matches Err(e) ==> avaliar_no(negar(n)) == Err::<i64, ErroAvaliacao>(e)),
{
    reveal_with_fuel(avaliar_no, 3);
    assert(avaliar_no(Node::Numero(0)) == Ok::<i64, ErroAvaliacao>(0));
}

/// Subexpressions always evaluate before being combined with the enclosing
/// operator: the value of a compound node is a function of the finished
/// values of its two subtrees alone, the left one first.
pub proof fn lema_subexpressoes_primeiro(op: TokenKind, esquerda: Node, direita: Node)
    ensures
        avaliar_no(binario(op, esquerda, direita)) == (match avaliar_no(esquerda) {
            Err(e) => Err(e),
            Ok(a) => match avaliar_no(direita) {
                Err(e) => Err(e),
                Ok(b) => avaliar_op(op, a, b),
            },
        }),
{
    reveal_with_fuel(avaliar_no, 2);
}

/// A parenthesized subexpression is one operand of the grammar: whatever the
/// nesting depth around it, it is derived whole, before the surrounding
/// operators see it, and its tree is the inner expression's tree.
pub proof fn lema_grupo_como_operando(ks: Seq<TokenKind>, i: int, e: Node, j: int)
    requires
        0 <= i < ks.len(),
        ks[i] == TokenKind::ParentesesEsquerdo,
        gram_expressao(ks, i + 1) == Some((e, j)),
        0 <= j < ks.len(),
        ks[j] == TokenKind::ParentesesDireito,
    ensures
        gram_fator(ks, i) == Some((e, j + 1)),
{
    reveal_with_fuel(gram_fator, 2);
}

/// Division by zero anywhere in the tree is an arithmetic error carrying the
/// dividend, never a fallback value.
pub proof fn lema_divisao_por_zero(esquerda: Node, direita: Node, a: i64)
    requires
        avaliar_no(esquerda) == Ok::<i64, ErroAvaliacao>(a),
        avaliar_no(direita) == Ok::<i64, ErroAvaliacao>(0i64),
    ensures
        avaliar_no(binario(TokenKind::Barra, esquerda, direita)) == Err::<i64, ErroAvaliacao>(
            ErroAvaliacao::DivisaoPorZero(a),
        ),
{
    reveal_with_fuel(avaliar_no, 2);
}

} // verus!

