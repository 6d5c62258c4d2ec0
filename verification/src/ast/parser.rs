//! Expression trees and their evaluation. The evaluator walks the tree bottom
//! up, computing the integer result while keeping a textual trace of each
//! reduction step; the trace is best-effort bookkeeping and never affects the
//! numeric result.

use vstd::prelude::*;
use vstd::string::*;
use crate::ast::lexer::{TextSpan, Token, TokenKind};
use crate::ast::texto::{
    contem_padrao,
    contem_str,
    substituir,
    substituir_todas,
    texto_do_valor,
    texto_int,
};

verus! {

// ---------------------------------------------------------------------------
// Expression trees
// ---------------------------------------------------------------------------

/// A binary expression tree: integer leaves and binary operations.
#[derive(Debug)]
pub enum Node {
    Numero(i64),
    BinaryOp { op: TokenKind, left: Box<Node>, right: Box<Node> },
}

/// The token kinds that stand for a binary operator.
pub open spec fn operador_valido(op: TokenKind) -> bool {
    ||| op == TokenKind::Mais
    ||| op == TokenKind::Menos
    ||| op == TokenKind::Asterisco
    ||| op == TokenKind::Barra
}

/// Every operator in the tree is one of the four binary operators.
pub open spec fn no_valido(n: Node) -> bool
    decreases n,
{
    match n {
        Node::Numero(_) => true,
        Node::BinaryOp { op, left, right } => operador_valido(op) && no_valido(*left) && no_valido(
            *right,
        ),
    }
}

// ---------------------------------------------------------------------------
// Arithmetic
// ---------------------------------------------------------------------------

pub open spec fn abs_int(a: int) -> int {
    if a >= 0 {
        a
    } else {
        -a
    }
}

/// Integer division truncating toward zero.
pub open spec fn div_trunc(a: int, b: int) -> int {
    if (a < 0) == (b < 0) {
        abs_int(a) / abs_int(b)
    } else {
        -(abs_int(a) / abs_int(b))
    }
}

/// The mathematical result of one binary operation.
pub open spec fn aplicar_op(op: TokenKind, a: int, b: int) -> int {
    if op == TokenKind::Mais {
        a + b
    } else if op == TokenKind::Menos {
        a - b
    } else if op == TokenKind::Asterisco {
        a * b
    } else {
        div_trunc(a, b)
    }
}

/// Errors the evaluator reports: division by zero (carrying the dividend),
/// a result outside the `i64` range, and an operator token that is not one of
/// the four binary operators.
#[derive(Debug, Clone, PartialEq, Eq, Structural)]
pub enum ErroAvaliacao {
    DivisaoPorZero(i64),
    Estouro,
    OperadorInvalido,
}

/// Value of a tree: children first (left before right), then the operator is
/// checked, then division by zero, then the `i64` range.
pub open spec fn avaliar_no(n: Node) -> Result<i64, ErroAvaliacao>
    decreases n,
{
    match n {
        Node::Numero(v) => Ok(v),
        Node::BinaryOp { op, left, right } => match avaliar_no(*left) {
            Err(e) => Err(e),
            Ok(a) => match avaliar_no(*right) {
                Err(e) => Err(e),
                Ok(b) => avaliar_op(op, a, b),
            },
        },
    }
}

/// Result of combining two already-evaluated operands.
pub open spec fn avaliar_op(op: TokenKind, a: i64, b: i64) -> Result<i64, ErroAvaliacao> {
    if !operador_valido(op) {
        Err(ErroAvaliacao::OperadorInvalido)
    } else if op == TokenKind::Barra && b == 0 {
        Err(ErroAvaliacao::DivisaoPorZero(a))
    } else {
        let v = aplicar_op(op, a as int, b as int);
        if v < i64::MIN || v > i64::MAX {
            Err(ErroAvaliacao::Estouro)
        } else {
            Ok(v as i64)
        }
    }
}

// ---------------------------------------------------------------------------
// Rendering
// ---------------------------------------------------------------------------

/// The symbol a binary operator renders to; any other kind renders to `?`
/// (such a kind never comes out of the parser).
pub open spec fn simbolo_op(op: TokenKind) -> Seq<char> {
    if op == TokenKind::Mais {
        seq!['+']
    } else if op == TokenKind::Menos {
        seq!['-']
    } else if op == TokenKind::Asterisco {
        seq!['*']
    } else if op == TokenKind::Barra {
        seq!['/']
    } else {
        seq!['?']
    }
}

/// Fully parenthesized rendering of a tree: a leaf renders to its decimal
/// digits, an operation to `"(" + left + " " + symbol + " " + right + ")"`.
pub open spec fn renderizar(n: Node) -> Seq<char>
    decreases n,
{
    match n {
        Node::Numero(v) => texto_int(v as int),
        Node::BinaryOp { op, left, right } => seq!['('] + renderizar(*left) + seq![' ']
            + simbolo_op(op) + seq![' '] + renderizar(*right) + seq![')'],
    }
}

/// The rendering of a node whose children have already been reduced to the
/// values `a` and `b`: the substring the evaluator looks for in the trace.
pub open spec fn padrao_reducao(op: TokenKind, a: i64, b: i64) -> Seq<char> {
    seq!['('] + texto_int(a as int) + seq![' '] + simbolo_op(op) + seq![' '] + texto_int(b as int)
        + seq![')']
}

// ---------------------------------------------------------------------------
// Evaluation with trace
// ---------------------------------------------------------------------------

/// Outcome of evaluating a subtree while maintaining the trace: the value (or
/// error), the trace text afterwards, and the snapshots emitted so far.
pub ghost struct PassoAvaliacao {
    pub valor: Result<i64, ErroAvaliacao>,
    pub texto: Seq<char>,
    pub registros: Seq<Seq<char>>,
}

/// One bottom-up evaluation pass. After both children of an operation reduce
/// to values, the rendering of the node over those values is sought in the
/// trace text and its first occurrences are replaced by the result's digits;
/// when the rendering is absent the text is left as it is. A snapshot of the
/// text is emitted after every operation. An error stops the walk at once.
pub open spec fn passo_avaliar(n: Node, texto: Seq<char>, registros: Seq<Seq<char>>) -> PassoAvaliacao
    decreases n,
{
    match n {
        Node::Numero(v) => PassoAvaliacao { valor: Ok(v), texto, registros },
        Node::BinaryOp { op, left, right } => {
            let pl = passo_avaliar(*left, texto, registros);
            if pl.valor is Err {
                pl
            } else {
                let pr = passo_avaliar(*right, pl.texto, pl.registros);
                if pr.valor is Err {
                    pr
                } else {
                    let a = pl.valor->Ok_0;
                    let b = pr.valor->Ok_0;
                    match avaliar_op(op, a, b) {
                        Err(e) => PassoAvaliacao {
                            valor: Err(e),
                            texto: pr.texto,
                            registros: pr.registros,
                        },
                        Ok(v) => {
                            let alvo = padrao_reducao(op, a, b);
                            let novo = if contem_padrao(pr.texto, alvo) {
                                substituir(pr.texto, alvo, texto_int(v as int))
                            } else {
                                pr.texto
                            };
                            PassoAvaliacao {
                                valor: Ok(v),
                                texto: novo,
                                registros: pr.registros.push(novo),
                            }
                        },
                    }
                }
            }
        },
    }
}

/// The numeric result of the traced evaluation never depends on the trace
/// bookkeeping: whatever text and snapshots the walk starts from, the value
/// it computes is the plain value of the tree.
pub proof fn lema_valor_independente_da_trilha(n: Node, texto: Seq<char>, registros: Seq<Seq<char>>)
    ensures
        passo_avaliar(n, texto, registros).valor == avaliar_no(n),
    decreases n,
{
    match n {
        Node::Numero(_) => {},
        Node::BinaryOp { op, left, right } => {
            lema_valor_independente_da_trilha(*left, texto, registros);
            let pl = passo_avaliar(*left, texto, registros);
            if !(pl.valor is Err) {
                lema_valor_independente_da_trilha(*right, pl.texto, pl.registros);
            }
        },
    }
}

impl Node {
    /// Truncating division of two evaluated operands.
    fn dividir_truncado(a: i64, b: i64) -> (r: i64)
        requires
            b != 0,
            !(a == i64::MIN && b == -1),
        ensures
            r as int == div_trunc(a as int, b as int),
    {
        let ua: u64 = if a < 0 {
            ((-(a + 1)) as u64) + 1
        } else {
            a as u64
        };
        let ub: u64 = if b < 0 {
            ((-(b + 1)) as u64) + 1
        } else {
            b as u64
        };
        proof {
            assert(ua as int == abs_int(a as int));
            assert(ub as int == abs_int(b as int));
        }
        let q: u64 = ua / ub;
        proof {
            vstd::arithmetic::div_mod::lemma_div_nonincreasing(ua as int, ub as int);
            if ub >= 2 {
                vstd::arithmetic::div_mod::lemma_div_is_ordered_by_denominator(ua as int, 2, ub as int);
                assert(ua as int / 2 <= 0x8000_0000_0000_0000int / 2) by {
                    vstd::arithmetic::div_mod::lemma_div_is_ordered(
                        ua as int,
                        0x8000_0000_0000_0000,
                        2,
                    );
                };
            } else {
                assert(ub == 1);
                assert(b == 1 || b == -1);
            }
        }
        if (a < 0) != (b < 0) {
            if q == 0 {
                0
            } else {
                -((q - 1) as i64) - 1
            }
        } else {
            q as i64
        }
    }

    /// Evaluates two operand values under one operator, with the checks in
    /// the order `avaliar_op` gives them.
    fn combinar_valores(op: &TokenKind, a: i64, b: i64) -> (r: Result<i64, ErroAvaliacao>)
        ensures
            r == avaliar_op(*op, a, b),
    {
        match op {
            TokenKind::Mais => match a.checked_add(b) {
                Some(v) => Ok(v),
                None => Err(ErroAvaliacao::Estouro),
            },
            TokenKind::Menos => match a.checked_sub(b) {
                Some(v) => Ok(v),
                None => Err(ErroAvaliacao::Estouro),
            },
            TokenKind::Asterisco => match a.checked_mul(b) {
                Some(v) => Ok(v),
                None => Err(ErroAvaliacao::Estouro),
            },
            TokenKind::Barra => {
                if b == 0 {
                    Err(ErroAvaliacao::DivisaoPorZero(a))
                } else if a == i64::MIN && b == -1 {
                    proof {
                        assert(div_trunc(a as int, b as int) == abs_int(a as int));
                    }
                    Err(ErroAvaliacao::Estouro)
                } else {
                    Ok(Self::dividir_truncado(a, b))
                }
            },
            _ => Err(ErroAvaliacao::OperadorInvalido),
        }
    }

    /// The symbol of a binary operator, `?` for any other kind.
    fn simbolo_str(op: &TokenKind) -> (r: &'static str)
        ensures
            r@ == simbolo_op(*op),
    {
        proof {
            reveal_strlit("+");
            reveal_strlit("-");
            reveal_strlit("*");
            reveal_strlit("/");
            reveal_strlit("?");
        }
        let r = match op {
            TokenKind::Mais => "+",
            TokenKind::Menos => "-",
            TokenKind::Asterisco => "*",
            TokenKind::Barra => "/",
            _ => "?",
        };
        proof {
            assert(r@ =~= simbolo_op(*op));
        }
        r
    }

    /// Builds `"(" + esquerda + " " + symbol + " " + direita + ")"`.
    fn montar_binario(esquerda: &str, op: &TokenKind, direita: &str) -> (r: String)
        ensures
            r@ == seq!['('] + esquerda@ + seq![' '] + simbolo_op(*op) + seq![' '] + direita@ + seq![
                ')',
            ],
    {
        proof {
            reveal_strlit("(");
            reveal_strlit(")");
            reveal_strlit(" ");
        }
        let mut r = String::from_str("(");
        r.append(esquerda);
        r.append(" ");
        r.append(Self::simbolo_str(op));
        r.append(" ");
        r.append(direita);
        r.append(")");
        proof {
            assert(r@ =~= seq!['('] + esquerda@ + seq![' '] + simbolo_op(*op) + seq![' ']
                + direita@ + seq![')']);
        }
        r
    }

    /// Evaluates the tree bottom-up, left child before right child, keeping
    /// `arvore_str` synchronized with the reduction and pushing a snapshot of
    /// it onto `registros` after every operation — exactly as `passo_avaliar`
    /// describes. The numeric result never depends on the trace bookkeeping.
    pub fn avaliar(&self, arvore_str: &mut String, registros: &mut Vec<String>) -> (r: Result<
        i64,
        ErroAvaliacao,
    >)
        ensures
            ({
                let p = passo_avaliar(*self, old(arvore_str)@, old(registros).deep_view());
                &&& r == p.valor
                &&& final(arvore_str)@ == p.texto
                &&& final(registros).deep_view() == p.registros
            }),
        decreases *self,
    {
        match self {
            Node::Numero(val) => Ok(*val),
            Node::BinaryOp { op, left, right } => {
                let left_val = match left.avaliar(arvore_str, registros) {
                    Ok(v) => v,
                    Err(e) => {
                        return Err(e);
                    },
                };
                let right_val = match right.avaliar(arvore_str, registros) {
                    Ok(v) => v,
                    Err(e) => {
                        return Err(e);
                    },
                };
                let resultado = match Self::combinar_valores(op, left_val, right_val) {
                    Ok(v) => v,
                    Err(e) => {
                        return Err(e);
                    },
                };
                let texto_esquerda = texto_do_valor(left_val);
                let texto_direita = texto_do_valor(right_val);
                let op_str = Self::montar_binario(texto_esquerda.as_str(), op, texto_direita.as_str());
                let ghost alvo = padrao_reducao(*op, left_val, right_val);
                proof {
                    assert(op_str@ =~= alvo);
                    assert(alvo.len() > 0);
                }
                let texto_resultado = texto_do_valor(resultado);
                if contem_str(arvore_str.as_str(), op_str.as_str()) {
                    let novo = substituir_todas(
                        arvore_str.as_str(),
                        op_str.as_str(),
                        texto_resultado.as_str(),
                    );
                    *arvore_str = novo;
                }
                registros.push(arvore_str.clone());
                proof {
                    let p = passo_avaliar(*self, old(arvore_str)@, old(registros).deep_view());
                    assert(final(registros).deep_view() =~= p.registros);
                }
                Ok(resultado)
            },
        }
    }

    /// Fully parenthesized rendering of the tree, as `renderizar` gives it.
    pub fn para_string(&self) -> (r: String)
        ensures
            r@ == renderizar(*self),
        decreases *self,
    {
        match self {
            Node::Numero(val) => texto_do_valor(*val),
            Node::BinaryOp { op, left, right } => {
                let left_str = left.para_string();
                let right_str = right.para_string();
                Self::montar_binario(left_str.as_str(), op, right_str.as_str())
            },
        }
    }
}

// ---------------------------------------------------------------------------
// The tree with its evaluation entry point
// ---------------------------------------------------------------------------

/// An expression tree; an empty tree stands for empty input and evaluates to
/// zero.
#[derive(Debug)]
pub struct Ast {
    pub raiz: Option<Node>,
}

impl Ast {
    pub fn nova(raiz: Option<Node>) -> (r: Self)
        ensures
            r.raiz == raiz,
    {
        Self { raiz }
    }

    pub fn raiz(&self) -> (r: Option<&Node>)
        ensures
            match r {
                Some(n) => self.raiz == Some(*n),
                None => self.raiz is None,
            },
    {
        self.raiz.as_ref()
    }

    /// Renders the tree, then evaluates it step by step, pushing each trace
    /// snapshot onto `registros`; an empty tree evaluates to zero with no
    /// snapshots.
    pub fn eval_step(&self, registros: &mut Vec<String>) -> (r: Result<i64, ErroAvaliacao>)
        ensures
            match self.raiz {
                None => r == Ok::<i64, ErroAvaliacao>(0) && *final(registros) == *old(registros),
                Some(n) => ({
                    let p = passo_avaliar(n, renderizar(n), old(registros).deep_view());
                    &&& r == p.valor
                    &&& final(registros).deep_view() == p.registros
                }),
            },
    {
        match &self.raiz {
            None => Ok(0),
            Some(no) => {
                let mut arvore_str = no.para_string();
                no.avaliar(&mut arvore_str, registros)
            },
        }
    }
}

// ---------------------------------------------------------------------------
// Shunting-yard parsing: the specification model
// ---------------------------------------------------------------------------

/// Structural errors: a token sequence that is not a well-formed expression.
#[derive(Debug, Clone, PartialEq, Eq, Structural)]
pub enum ErroEstrutural {
    /// An operator or closing parenthesis stands where an operand is owed.
    OperandoFaltando,
    /// A number or opening parenthesis stands where an operator is owed.
    OperadorFaltando,
    /// A closing parenthesis without a matching opening one.
    ParenteseNaoAberto,
    /// An opening parenthesis that is never closed.
    ParenteseNaoFechado,
}

/// An entry of the operator stack: a pending binary operator, an opening
/// parenthesis marker, or a pending unary negation.
#[derive(Debug, PartialEq, Eq, Structural)]
pub enum OpEmpilhado {
    Binario(TokenKind),
    Parentese,
    NegacaoUnaria,
}

/// Operator precedence: `+`, `-` bind at 1; `*`, `/` at 2; anything else at 0.
pub open spec fn precedencia_token(k: TokenKind) -> int {
    if k == TokenKind::Mais || k == TokenKind::Menos {
        1
    } else if k == TokenKind::Asterisco || k == TokenKind::Barra {
        2
    } else {
        0
    }
}

/// Precedence of a stack entry; unary negation binds tighter than any binary
/// operator, and a parenthesis marker never takes part in reductions.
pub open spec fn precedencia_sy(op: OpEmpilhado) -> int {
    match op {
        OpEmpilhado::Binario(k) => precedencia_token(k),
        OpEmpilhado::Parentese => 0,
        OpEmpilhado::NegacaoUnaria => 3,
    }
}

/// The two working stacks of the shunting-yard parser, with the flag that
/// says whether an operand is expected next.
pub ghost struct EstadoSy {
    pub saida: Seq<Node>,
    pub operadores: Seq<OpEmpilhado>,
    pub espera_operando: bool,
}

pub open spec fn estado_inicial() -> EstadoSy {
    EstadoSy { saida: seq![], operadores: seq![], espera_operando: true }
}

/// Pops the top operator and applies it to the output stack: a binary
/// operator combines the two topmost nodes (first popped is the right
/// operand), a unary negation rewrites the topmost node `x` as `0 - x`, and a
/// parenthesis marker is discarded. (The output stack is left alone when it
/// is too short; a reachable state always has enough operands.)
pub open spec fn aplicar_topo(st: EstadoSy) -> EstadoSy {
    let resto = st.operadores.drop_last();
    match st.operadores.last() {
        OpEmpilhado::Binario(k) => if st.saida.len() >= 2 {
            let direita = st.saida.last();
            let esquerda = st.saida[st.saida.len() - 2];
            EstadoSy {
                saida: st.saida.drop_last().drop_last().push(
                    Node::BinaryOp {
                        op: k,
                        left: Box::new(esquerda),
                        right: Box::new(direita),
                    },
                ),
                operadores: resto,
                espera_operando: st.espera_operando,
            }
        } else {
            EstadoSy { saida: st.saida, operadores: resto, espera_operando: st.espera_operando }
        },
        OpEmpilhado::NegacaoUnaria => if st.saida.len() >= 1 {
            EstadoSy {
                saida: st.saida.drop_last().push(
                    Node::BinaryOp {
                        op: TokenKind::Menos,
                        left: Box::new(Node::Numero(0)),
                        right: Box::new(st.saida.last()),
                    },
                ),
                operadores: resto,
                espera_operando: st.espera_operando,
            }
        } else {
            EstadoSy { saida: st.saida, operadores: resto, espera_operando: st.espera_operando }
        },
        OpEmpilhado::Parentese => EstadoSy {
            saida: st.saida,
            operadores: resto,
            espera_operando: st.espera_operando,
        },
    }
}

/// Reduces while the top of the operator stack is no parenthesis marker and
/// binds at least as tightly as `prec` — the left-associative tie-break.
pub open spec fn reduzir_para(st: EstadoSy, prec: int) -> EstadoSy
    decreases st.operadores.len(),
{
    if st.operadores.len() > 0 && !(st.operadores.last() is Parentese) && precedencia_sy(
        st.operadores.last(),
    ) >= prec {
        reduzir_para(aplicar_topo(st), prec)
    } else {
        st
    }
}

/// On a closing parenthesis: reduces until the matching opening marker, which
/// is discarded; with no such marker the parentheses do not balance.
pub open spec fn fechar_parentese(st: EstadoSy) -> Result<EstadoSy, ErroEstrutural>
    decreases st.operadores.len(),
{
    if st.operadores.len() == 0 {
        Err(ErroEstrutural::ParenteseNaoAberto)
    } else if st.operadores.last() is Parentese {
        Ok(
            EstadoSy {
                saida: st.saida,
                operadores: st.operadores.drop_last(),
                espera_operando: st.espera_operando,
            },
        )
    } else {
        fechar_parentese(aplicar_topo(st))
    }
}

/// One shunting-yard step. A number goes to the output stack; a binary
/// operator first reduces everything that binds at least as tightly; a minus
/// where an operand is expected is a unary negation; parentheses push and
/// close markers. Whitespace, end-of-input and invalid tokens are passed
/// over. A token out of place is a structural error.
pub open spec fn passo_sy(st: EstadoSy, k: TokenKind) -> Result<EstadoSy, ErroEstrutural> {
    match k {
        TokenKind::Numero(v) => if st.espera_operando {
            Ok(
                EstadoSy {
                    saida: st.saida.push(Node::Numero(v)),
                    operadores: st.operadores,
                    espera_operando: false,
                },
            )
        } else {
            Err(ErroEstrutural::OperadorFaltando)
        },
        TokenKind::Menos => if st.espera_operando {
            Ok(
                EstadoSy {
                    saida: st.saida,
                    operadores: st.operadores.push(OpEmpilhado::NegacaoUnaria),
                    espera_operando: true,
                },
            )
        } else {
            let st2 = reduzir_para(st, precedencia_token(k));
            Ok(
                EstadoSy {
                    saida: st2.saida,
                    operadores: st2.operadores.push(OpEmpilhado::Binario(k)),
                    espera_operando: true,
                },
            )
        },
        TokenKind::Mais | TokenKind::Asterisco | TokenKind::Barra => if st.espera_operando {
            Err(ErroEstrutural::OperandoFaltando)
        } else {
            let st2 = reduzir_para(st, precedencia_token(k));
            Ok(
                EstadoSy {
                    saida: st2.saida,
                    operadores: st2.operadores.push(OpEmpilhado::Binario(k)),
                    espera_operando: true,
                },
            )
        },
        TokenKind::ParentesesEsquerdo => if st.espera_operando {
            Ok(
                EstadoSy {
                    saida: st.saida,
                    operadores: st.operadores.push(OpEmpilhado::Parentese),
                    espera_operando: true,
                },
            )
        } else {
            Err(ErroEstrutural::OperadorFaltando)
        },
        TokenKind::ParentesesDireito => if st.espera_operando {
            Err(ErroEstrutural::OperandoFaltando)
        } else {
            fechar_parentese(st)
        },
        _ => Ok(st),
    }
}

/// Runs the step function over a whole token-kind sequence.
pub open spec fn executar_sy(ks: Seq<TokenKind>, st: EstadoSy) -> Result<EstadoSy, ErroEstrutural>
    decreases ks.len(),
{
    if ks.len() == 0 {
        Ok(st)
    } else {
        match passo_sy(st, ks[0]) {
            Err(e) => Err(e),
            Ok(st2) => executar_sy(ks.skip(1), st2),
        }
    }
}

/// At the end of the input: with an operand still owed only an entirely empty
/// expression is well-formed (the empty tree); otherwise the operator stack
/// is drained, any leftover parenthesis marker being unbalanced, and exactly
/// one node must remain, the root.
pub open spec fn finalizar_sy(st: EstadoSy) -> Result<Option<Node>, ErroEstrutural>
    decreases st.operadores.len(),
{
    if st.espera_operando {
        if st.saida.len() == 0 && st.operadores.len() == 0 {
            Ok(None)
        } else {
            Err(ErroEstrutural::OperandoFaltando)
        }
    } else if st.operadores.len() > 0 {
        if st.operadores.last() is Parentese {
            Err(ErroEstrutural::ParenteseNaoFechado)
        } else {
            finalizar_sy(aplicar_topo(st))
        }
    } else if st.saida.len() == 1 {
        Ok(Some(st.saida[0]))
    } else {
        Err(ErroEstrutural::OperandoFaltando)
    }
}

/// The whole parse of a token-kind sequence: either the tree (empty for
/// empty input) or the structural error.
pub open spec fn analisar_sy(ks: Seq<TokenKind>) -> Result<Option<Node>, ErroEstrutural> {
    match executar_sy(ks, estado_inicial()) {
        Err(e) => Err(e),
        Ok(st) => finalizar_sy(st),
    }
}

// ---------------------------------------------------------------------------
// Facts about the model
// ---------------------------------------------------------------------------

/// How many binary operators a stack holds.
pub open spec fn contagem_binarios(ops: Seq<OpEmpilhado>) -> int
    decreases ops.len(),
{
    if ops.len() == 0 {
        0
    } else {
        contagem_binarios(ops.drop_last()) + if ops.last() is Binario {
            1int
        } else {
            0int
        }
    }
}

/// The state invariant the parser maintains: the output stack holds exactly
/// one node per pending binary operator, plus one once an operand has been
/// read; every stacked binary operator is one of the four; every node built
/// so far is valid.
pub open spec fn invariante_sy(st: EstadoSy) -> bool {
    &&& st.saida.len() == contagem_binarios(st.operadores) + if st.espera_operando {
        0int
    } else {
        1int
    }
    &&& forall|i: int|
        0 <= i < st.operadores.len() ==> (#[trigger] st.operadores[i] matches OpEmpilhado::Binario(
            k,
        ) ==> operador_valido(k))
    &&& forall|i: int| 0 <= i < st.saida.len() ==> no_valido(#[trigger] st.saida[i])
}

pub proof fn lema_contagem_push(ops: Seq<OpEmpilhado>, op: OpEmpilhado)
    ensures
        contagem_binarios(ops.push(op)) == contagem_binarios(ops) + if op is Binario {
            1int
        } else {
            0int
        },
{
    assert(ops.push(op).drop_last() =~= ops);
    assert(ops.push(op).last() == op);
}

pub proof fn lema_contagem_nao_negativa(ops: Seq<OpEmpilhado>)
    ensures
        contagem_binarios(ops) >= 0,
    decreases ops.len(),
{
    if ops.len() > 0 {
        lema_contagem_nao_negativa(ops.drop_last());
    }
}

/// Applying the top of the stack in a state with an operand on hand keeps
/// the invariant, never hits a short output stack, and pops one entry.
pub proof fn lema_aplicar_topo_invariante(st: EstadoSy)
    requires
        invariante_sy(st),
        !st.espera_operando,
        st.operadores.len() > 0,
        !(st.operadores.last() is Parentese),
    ensures
        invariante_sy(aplicar_topo(st)),
        !aplicar_topo(st).espera_operando,
        aplicar_topo(st).operadores == st.operadores.drop_last(),
        st.operadores.last() is Binario ==> st.saida.len() >= 2,
        st.operadores.last() is NegacaoUnaria ==> st.saida.len() >= 1,
{
    lema_contagem_nao_negativa(st.operadores.drop_last());
    let st2 = aplicar_topo(st);
    match st.operadores.last() {
        OpEmpilhado::Binario(k) => {
            assert(contagem_binarios(st.operadores) == contagem_binarios(st.operadores.drop_last())
                + 1);
            assert(st.saida.len() >= 2);
            assert(forall|i: int| 0 <= i < st2.saida.len() ==> no_valido(#[trigger] st2.saida[i]));
        },
        OpEmpilhado::NegacaoUnaria => {
            assert(contagem_binarios(st.operadores) == contagem_binarios(
                st.operadores.drop_last(),
            ));
            assert(st.saida.len() >= 1);
            assert(no_valido(st.saida[st.saida.len() - 1]));
            assert(no_valido(Node::Numero(0)));
            assert(no_valido(st2.saida.last()));
            assert(forall|i: int| 0 <= i < st2.saida.len() ==> no_valido(#[trigger] st2.saida[i]));
        },
        OpEmpilhado::Parentese => {},
    }
}

pub proof fn lema_reduzir_invariante(st: EstadoSy, prec: int)
    requires
        invariante_sy(st),
        !st.espera_operando,
    ensures
        invariante_sy(reduzir_para(st, prec)),
        !reduzir_para(st, prec).espera_operando,
    decreases st.operadores.len(),
{
    if st.operadores.len() > 0 && !(st.operadores.last() is Parentese) && precedencia_sy(
        st.operadores.last(),
    ) >= prec {
        lema_aplicar_topo_invariante(st);
        lema_reduzir_invariante(aplicar_topo(st), prec);
    }
}

pub proof fn lema_fechar_invariante(st: EstadoSy)
    requires
        invariante_sy(st),
        !st.espera_operando,
    ensures
        fechar_parentese(st) matches Ok(st2) ==> invariante_sy(st2) && !st2.espera_operando,
    decreases st.operadores.len(),
{
    if st.operadores.len() == 0 {
    } else if st.operadores.last() is Parentese {
        assert(contagem_binarios(st.operadores) == contagem_binarios(st.operadores.drop_last()));
    } else {
        lema_aplicar_topo_invariante(st);
        lema_fechar_invariante(aplicar_topo(st));
    }
}

pub proof fn lema_passo_invariante(st: EstadoSy, k: TokenKind)
    requires
        invariante_sy(st),
    ensures
        passo_sy(st, k) matches Ok(st2) ==> invariante_sy(st2),
{
    match k {
        TokenKind::Numero(v) => {
            if st.espera_operando {
                assert(no_valido(Node::Numero(v)));
                let saida2 = st.saida.push(Node::Numero(v));
                assert(forall|i: int| 0 <= i < saida2.len() ==> no_valido(#[trigger] saida2[i]));
            }
        },
        TokenKind::Menos => {
            if st.espera_operando {
                lema_contagem_push(st.operadores, OpEmpilhado::NegacaoUnaria);
            } else {
                lema_reduzir_invariante(st, precedencia_token(k));
                lema_contagem_push(
                    reduzir_para(st, precedencia_token(k)).operadores,
                    OpEmpilhado::Binario(k),
                );
            }
        },
        TokenKind::Mais | TokenKind::Asterisco | TokenKind::Barra => {
            if !st.espera_operando {
                lema_reduzir_invariante(st, precedencia_token(k));
                lema_contagem_push(
                    reduzir_para(st, precedencia_token(k)).operadores,
                    OpEmpilhado::Binario(k),
                );
            }
        },
        TokenKind::ParentesesEsquerdo => {
            if st.espera_operando {
                lema_contagem_push(st.operadores, OpEmpilhado::Parentese);
            }
        },
        TokenKind::ParentesesDireito => {
            if !st.espera_operando {
                lema_fechar_invariante(st);
            }
        },
        _ => {},
    }
}

/// Running the steps over a single token is taking that one step.
pub proof fn lema_executar_um(k: TokenKind, st: EstadoSy)
    ensures
        executar_sy(seq![k], st) == passo_sy(st, k),
{
    assert(seq![k][0] == k);
    assert(seq![k].skip(1) =~= Seq::<TokenKind>::empty());
    match passo_sy(st, k) {
        Err(e) => {},
        Ok(m) => {
            assert(executar_sy(Seq::<TokenKind>::empty(), m) == Ok::<EstadoSy, ErroEstrutural>(m));
        },
    }
}

/// Running the steps over a concatenation is running them over each part in
/// turn.
pub proof fn lema_executar_concat(a: Seq<TokenKind>, b: Seq<TokenKind>, st: EstadoSy)
    ensures
        executar_sy(a + b, st) == match executar_sy(a, st) {
            Err(e) => Err(e),
            Ok(m) => executar_sy(b, m),
        },
    decreases a.len(),
{
    if a.len() == 0 {
        assert(a + b =~= b);
    } else {
        assert((a + b)[0] == a[0]);
        match passo_sy(st, a[0]) {
            Err(e) => {
                assert((a + b).len() > 0);
            },
            Ok(m) => {
                assert((a + b).skip(1) =~= a.skip(1) + b);
                lema_executar_concat(a.skip(1), b, m);
            },
        }
    }
}

// ---------------------------------------------------------------------------
// The executable parser
// ---------------------------------------------------------------------------

pub struct Parser {
    pub tokens: Vec<Token>,
    pub atual: usize,
}

impl Parser {
    pub fn new(tokens: Vec<Token>) -> (r: Self)
        ensures
            r.tokens == tokens,
            r.atual == 0,
    {
        Self { tokens, atual: 0 }
    }

    fn proximo_token(&mut self) -> (r: Option<Token>)
        ensures
            final(self).tokens == old(self).tokens,
            old(self).atual < old(self).tokens@.len() ==> {
                &&& final(self).atual == old(self).atual + 1
                &&& r == Some(old(self).tokens@[old(self).atual as int])
            },
            old(self).atual >= old(self).tokens@.len() ==> {
                &&& final(self).atual == old(self).atual
                &&& r is None
            },
    {
        if self.atual < self.tokens.len() {
            let t = &self.tokens[self.atual];
            self.atual = self.atual + 1;
            Some(
                Token {
                    kind: t.kind,
                    span: TextSpan {
                        start: t.span.start,
                        end: t.span.end,
                        literal: t.span.literal.clone(),
                    },
                },
            )
        } else {
            None
        }
    }

    fn precedencia(op: &TokenKind) -> (r: u8)
        ensures
            r as int == precedencia_token(*op),
    {
        match op {
            TokenKind::Mais | TokenKind::Menos => 1,
            TokenKind::Asterisco | TokenKind::Barra => 2,
            _ => 0,
        }
    }

    fn precedencia_empilhada(op: &OpEmpilhado) -> (r: u8)
        ensures
            r as int == precedencia_sy(*op),
    {
        match op {
            OpEmpilhado::Binario(k) => Self::precedencia(k),
            OpEmpilhado::Parentese => 0,
            OpEmpilhado::NegacaoUnaria => 3,
        }
    }

    /// Pops the top operator and applies it to the output stack, exactly as
    /// `aplicar_topo` describes.
    fn aplicar_topo_pilhas(
        saida: &mut Vec<Node>,
        operadores: &mut Vec<OpEmpilhado>,
        Ghost(espera): Ghost<bool>,
    )
        requires
            old(operadores)@.len() > 0,
            (!(old(operadores)@.last() is Parentese)),
            (old(operadores)@.last() is Binario ==> old(saida)@.len() >= 2),
            (old(operadores)@.last() is NegacaoUnaria ==> old(saida)@.len() >= 1),
        ensures
            (EstadoSy {
                saida: final(saida)@,
                operadores: final(operadores)@,
                espera_operando: espera,
            } == aplicar_topo(
                EstadoSy {
                    saida: old(saida)@,
                    operadores: old(operadores)@,
                    espera_operando: espera,
                },
            )),
    {
        let op = match operadores.pop() {
            Some(op) => op,
            None => unreached(),
        };
        match op {
            OpEmpilhado::Binario(k) => {
                let direita = match saida.pop() {
                    Some(n) => n,
                    None => unreached(),
                };
                let esquerda = match saida.pop() {
                    Some(n) => n,
                    None => unreached(),
                };
                saida.push(
                    Node::BinaryOp { op: k, left: Box::new(esquerda), right: Box::new(direita) },
                );
            },
            OpEmpilhado::NegacaoUnaria => {
                let operando = match saida.pop() {
                    Some(n) => n,
                    None => unreached(),
                };
                saida.push(
                    Node::BinaryOp {
                        op: TokenKind::Menos,
                        left: Box::new(Node::Numero(0)),
                        right: Box::new(operando),
                    },
                );
            },
            OpEmpilhado::Parentese => unreached(),
        }
    }

    /// The shunting-yard parse of the held tokens, exactly as `analisar_sy`
    /// describes it on their kinds: the tree on success (with every operator
    /// in it one of the four), the structural error otherwise.
    pub fn parse(&mut self) -> (r: Result<Ast, ErroEstrutural>)
        requires
            old(self).atual == 0,
        ensures
            final(self).tokens == old(self).tokens,
            ({
                let ks = old(self).tokens@.map_values(|t: Token| t.kind);
                match analisar_sy(ks) {
                    Ok(raiz) => {
                        &&& r matches Ok(a) && a.raiz == raiz
                        &&& (raiz matches Some(n) ==> no_valido(n))
                    },
                    Err(e) => r == Err::<Ast, ErroEstrutural>(e),
                }
            }),
    {
        let ghost ks = self.tokens@.map_values(|t: Token| t.kind);
        let mut saida: Vec<Node> = Vec::new();
        let mut operadores: Vec<OpEmpilhado> = Vec::new();
        let mut espera_operando: bool = true;
        proof {
            assert(ks.take(self.atual as int) =~= Seq::<TokenKind>::empty());
        }
        loop
            invariant
                self.tokens == old(self).tokens,
                ks == self.tokens@.map_values(|t: Token| t.kind),
                self.atual <= self.tokens@.len(),
                executar_sy(ks.take(self.atual as int), estado_inicial()) == Ok::<
                    EstadoSy,
                    ErroEstrutural,
                >(EstadoSy { saida: saida@, operadores: operadores@, espera_operando }),
                invariante_sy(
                    EstadoSy { saida: saida@, operadores: operadores@, espera_operando },
                ),
            ensures
                self.tokens == old(self).tokens,
                executar_sy(ks, estado_inicial()) == Ok::<EstadoSy, ErroEstrutural>(
                    EstadoSy { saida: saida@, operadores: operadores@, espera_operando },
                ),
                invariante_sy(
                    EstadoSy { saida: saida@, operadores: operadores@, espera_operando },
                ),
            decreases self.tokens@.len() - self.atual,
        {
            let ghost i = self.atual as int;
            let ghost st_antes = EstadoSy { saida: saida@, operadores: operadores@, espera_operando };
            let token = match self.proximo_token() {
                Some(token) => token,
                None => {
                    proof {
                        assert(ks.take(i) =~= ks);
                    }
                    break ;
                },
            };
            proof {
                assert(ks[i] == token.kind);
                assert(ks.take(i + 1) =~= ks.take(i) + seq![ks[i]]);
                lema_executar_concat(ks.take(i), seq![ks[i]], estado_inicial());
                lema_executar_um(ks[i], st_antes);
                lema_passo_invariante(st_antes, ks[i]);
            }
            match token.kind {
                TokenKind::Numero(v) => {
                    if !espera_operando {
                        proof {
                            lema_executar_concat(ks.take(i), ks.skip(i), estado_inicial());
                            assert(ks.take(i) + ks.skip(i) =~= ks);
                            assert(ks.skip(i)[0] == ks[i]);
                        }
                        return Err(ErroEstrutural::OperadorFaltando);
                    }
                    saida.push(Node::Numero(v));
                    espera_operando = false;
                },
                TokenKind::Menos | TokenKind::Mais | TokenKind::Asterisco | TokenKind::Barra => {
                    let eh_menos = match token.kind {
                        TokenKind::Menos => true,
                        _ => false,
                    };
                    if espera_operando {
                        if eh_menos {
                            operadores.push(OpEmpilhado::NegacaoUnaria);
                        } else {
                            proof {
                                lema_executar_concat(ks.take(i), ks.skip(i), estado_inicial());
                                assert(ks.take(i) + ks.skip(i) =~= ks);
                                assert(ks.skip(i)[0] == ks[i]);
                            }
                            return Err(ErroEstrutural::OperandoFaltando);
                        }
                    } else {
                        let prec = Self::precedencia(&token.kind);
                        let ghost st0 = EstadoSy {
                            saida: saida@,
                            operadores: operadores@,
                            espera_operando,
                        };
                        proof {
                            lema_reduzir_invariante(st0, prec as int);
                        }
                        loop
                            invariant
                                espera_operando == false,
                                invariante_sy(
                                    EstadoSy {
                                        saida: saida@,
                                        operadores: operadores@,
                                        espera_operando: false,
                                    },
                                ),
                                reduzir_para(st0, prec as int) == reduzir_para(
                                    EstadoSy {
                                        saida: saida@,
                                        operadores: operadores@,
                                        espera_operando: false,
                                    },
                                    prec as int,
                                ),
                            ensures
                                (EstadoSy {
                                    saida: saida@,
                                    operadores: operadores@,
                                    espera_operando: false,
                                } == reduzir_para(st0, prec as int)),
                            decreases operadores@.len(),
                        {
                            let ghost st_cur = EstadoSy {
                                saida: saida@,
                                operadores: operadores@,
                                espera_operando: false,
                            };
                            if operadores.len() == 0 {
                                break ;
                            }
                            let continua = match &operadores[operadores.len() - 1] {
                                OpEmpilhado::Parentese => false,
                                topo => Self::precedencia_empilhada(topo) >= prec,
                            };
                            if !continua {
                                break ;
                            }
                            proof {
                                lema_aplicar_topo_invariante(st_cur);
                            }
                            Self::aplicar_topo_pilhas(&mut saida, &mut operadores, Ghost(false));
                        }
                        operadores.push(OpEmpilhado::Binario(token.kind));
                        espera_operando = true;
                    }
                },
                TokenKind::ParentesesEsquerdo => {
                    if !espera_operando {
                        proof {
                            lema_executar_concat(ks.take(i), ks.skip(i), estado_inicial());
                            assert(ks.take(i) + ks.skip(i) =~= ks);
                            assert(ks.skip(i)[0] == ks[i]);
                        }
                        return Err(ErroEstrutural::OperadorFaltando);
                    }
                    operadores.push(OpEmpilhado::Parentese);
                },
                TokenKind::ParentesesDireito => {
                    if espera_operando {
                        proof {
                            lema_executar_concat(ks.take(i), ks.skip(i), estado_inicial());
                            assert(ks.take(i) + ks.skip(i) =~= ks);
                            assert(ks.skip(i)[0] == ks[i]);
                        }
                        return Err(ErroEstrutural::OperandoFaltando);
                    }
                    let ghost st0 = EstadoSy { saida: saida@, operadores: operadores@, espera_operando };
                    let mut fechado: bool = false;
                    loop
                        invariant_except_break
                            fechado == false,
                            fechar_parentese(st0) == fechar_parentese(
                                EstadoSy {
                                    saida: saida@,
                                    operadores: operadores@,
                                    espera_operando: false,
                                },
                            ),
                        invariant
                            espera_operando == false,
                            invariante_sy(
                                EstadoSy {
                                    saida: saida@,
                                    operadores: operadores@,
                                    espera_operando: false,
                                },
                            ),
                        ensures
                            fechado ==> Ok::<EstadoSy, ErroEstrutural>(
                                EstadoSy {
                                    saida: saida@,
                                    operadores: operadores@,
                                    espera_operando: false,
                                },
                            ) == fechar_parentese(st0),
                            !fechado ==> fechar_parentese(st0) == Err::<
                                EstadoSy,
                                ErroEstrutural,
                            >(ErroEstrutural::ParenteseNaoAberto),
                        decreases operadores@.len(),
                    {
                        let ghost st_cur = EstadoSy {
                            saida: saida@,
                            operadores: operadores@,
                            espera_operando: false,
                        };
                        if operadores.len() == 0 {
                            break ;
                        }
                        let eh_parentese = match &operadores[operadores.len() - 1] {
                            OpEmpilhado::Parentese => true,
                            _ => false,
                        };
                        if eh_parentese {
                            operadores.pop();
                            fechado = true;
                            proof {
                                assert(contagem_binarios(operadores@) == contagem_binarios(
                                    st_cur.operadores,
                                ));
                            }
                            break ;
                        }
                        proof {
                            lema_aplicar_topo_invariante(st_cur);
                        }
                        Self::aplicar_topo_pilhas(&mut saida, &mut operadores, Ghost(false));
                    }
                    if !fechado {
                        proof {
                            lema_executar_concat(ks.take(i), ks.skip(i), estado_inicial());
                            assert(ks.take(i) + ks.skip(i) =~= ks);
                            assert(ks.skip(i)[0] == ks[i]);
                        }
                        return Err(ErroEstrutural::ParenteseNaoAberto);
                    }
                },
                _ => {},
            }
        }
        // End of the tokens: drain the operator stack and take the root.
        let ghost st_fim = EstadoSy { saida: saida@, operadores: operadores@, espera_operando };
        if espera_operando {
            if saida.len() == 0 && operadores.len() == 0 {
                return Ok(Ast::nova(None));
            }
            return Err(ErroEstrutural::OperandoFaltando);
        }
        loop
            invariant
                espera_operando == false,
                invariante_sy(
                    EstadoSy { saida: saida@, operadores: operadores@, espera_operando: false },
                ),
                finalizar_sy(st_fim) == finalizar_sy(
                    EstadoSy { saida: saida@, operadores: operadores@, espera_operando: false },
                ),
            ensures
                ({
                    let st = EstadoSy {
                        saida: saida@,
                        operadores: operadores@,
                        espera_operando: false,
                    };
                    &&& invariante_sy(st)
                    &&& finalizar_sy(st_fim) == finalizar_sy(st)
                    &&& (operadores@.len() > 0 ==> operadores@.last() is Parentese)
                }),
            decreases operadores@.len(),
        {
            let ghost st_cur = EstadoSy {
                saida: saida@,
                operadores: operadores@,
                espera_operando: false,
            };
            if operadores.len() == 0 {
                break ;
            }
            let eh_parentese = match &operadores[operadores.len() - 1] {
                OpEmpilhado::Parentese => true,
                _ => false,
            };
            if eh_parentese {
                break ;
            }
            proof {
                lema_aplicar_topo_invariante(st_cur);
            }
            Self::aplicar_topo_pilhas(&mut saida, &mut operadores, Ghost(false));
        }
        if operadores.len() > 0 {
            return Err(ErroEstrutural::ParenteseNaoFechado);
        }
        proof {
            lema_contagem_nao_negativa(operadores@);
            assert(saida@.len() == 1);
        }
        let raiz = match saida.pop() {
            Some(n) => n,
            None => unreached(),
        };
        proof {
            assert(finalizar_sy(st_fim) == Ok::<Option<Node>, ErroEstrutural>(Some(raiz)));
        }
        Ok(Ast::nova(Some(raiz)))
    }
}

} // verus!
