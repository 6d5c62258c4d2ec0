//! A second tree builder: reads tokens in postfix order, pushing literals
//! and combining the two topmost nodes under each operator.

use vstd::prelude::*;
use vstd::string::*;
use crate::ast::lexer::eh_digito;
use crate::ast::parser::ErroEstrutural;

verus! {

/// A tree over textual tokens: literal text at the leaves, an operator text
/// at each inner node.
#[derive(Debug)]
pub enum Node {
    Texto(String),
    Operation { operator: String, left: Box<Node>, right: Box<Node> },
}

/// A token that stands for a number: one or more decimal digits.
pub open spec fn eh_numero_texto(s: Seq<char>) -> bool {
    s.len() > 0 && forall|i: int| 0 <= i < s.len() ==> eh_digito(s[i])
}

/// The postfix build: a number token is pushed; any other token is an
/// operator and combines the two topmost nodes, the first popped becoming
/// the right operand. An operator with fewer than two nodes on the stack is
/// a structural error.
pub open spec fn construir_posfixa(tokens: Seq<String>, pilha: Seq<Node>) -> Result<
    Seq<Node>,
    ErroEstrutural,
>
    decreases tokens.len(),
{
    if tokens.len() == 0 {
        Ok(pilha)
    } else if eh_numero_texto(tokens[0]@) {
        construir_posfixa(tokens.skip(1), pilha.push(Node::Texto(tokens[0])))
    } else if pilha.len() >= 2 {
        construir_posfixa(
            tokens.skip(1),
            pilha.drop_last().drop_last().push(
                Node::Operation {
                    operator: tokens[0],
                    left: Box::new(pilha[pilha.len() - 2]),
                    right: Box::new(pilha.last()),
                },
            ),
        )
    } else {
        Err(ErroEstrutural::OperandoFaltando)
    }
}

/// The whole postfix parse: exactly one node may remain, the root.
pub open spec fn analisar_posfixa(tokens: Seq<String>) -> Result<Node, ErroEstrutural> {
    match construir_posfixa(tokens, seq![]) {
        Err(e) => Err(e),
        Ok(pilha) => if pilha.len() == 1 {
            Ok(pilha[0])
        } else if pilha.len() == 0 {
            Err(ErroEstrutural::OperandoFaltando)
        } else {
            Err(ErroEstrutural::OperadorFaltando)
        },
    }
}

/// Fully parenthesized rendering of a postfix-built tree.
pub open spec fn renderizar_no(n: Node) -> Seq<char>
    decreases n,
{
    match n {
        Node::Texto(v) => v@,
        Node::Operation { operator, left, right } => seq!['('] + renderizar_no(*left) + seq![' ']
            + operator@ + seq![' '] + renderizar_no(*right) + seq![')'],
    }
}

fn eh_numero_str(s: &str) -> (r: bool)
    ensures
        r == eh_numero_texto(s@),
{
    let tamanho = s.unicode_len();
    if tamanho == 0 {
        return false;
    }
    let mut i: usize = 0;
    while i < tamanho
        invariant
            tamanho == s@.len(),
            i <= tamanho,
            forall|k: int| 0 <= k < i ==> eh_digito(s@[k]),
        decreases tamanho - i,
    {
        let c = s.get_char(i);
        let u = c as u32;
        if !(48 <= u && u <= 57) {
            return false;
        }
        i = i + 1;
    }
    true
}

pub struct Tree {
    pub root: Node,
}

impl Tree {
    /// Builds the tree from a postfix token sequence, exactly as
    /// `analisar_posfixa` describes it.
    pub fn parse_from_vector(tokens: Vec<String>) -> (r: Result<Tree, ErroEstrutural>)
        ensures
            (match analisar_posfixa(tokens@) {
                Ok(n) => r matches Ok(t) && t.root == n,
                Err(e) => r == Err::<Tree, ErroEstrutural>(e),
            }),
    {
        let mut stack: Vec<Node> = Vec::new();
        let mut i: usize = 0;
        proof {
            assert(tokens@.skip(0) =~= tokens@);
        }
        while i < tokens.len()
            invariant
                i <= tokens@.len(),
                construir_posfixa(tokens@.skip(i as int), stack@) == construir_posfixa(
                    tokens@,
                    Seq::<Node>::empty(),
                ),
            decreases tokens@.len() - i,
        {
            let ghost resto = tokens@.skip(i as int);
            let ghost pilha0 = stack@;
            proof {
                assert(resto[0] == tokens@[i as int]);
                assert(resto.skip(1) =~= tokens@.skip(i as int + 1));
            }
            let token = &tokens[i];
            if eh_numero_str(token.as_str()) {
                stack.push(Node::Texto(token.clone()));
            } else {
                if stack.len() < 2 {
                    return Err(ErroEstrutural::OperandoFaltando);
                }
                let op2 = match stack.pop() {
                    Some(n) => n,
                    None => unreached(),
                };
                let op1 = match stack.pop() {
                    Some(n) => n,
                    None => unreached(),
                };
                let operation = Node::Operation {
                    operator: token.clone(),
                    left: Box::new(op1),
                    right: Box::new(op2),
                };
                stack.push(operation);
                proof {
                    assert(stack@ =~= pilha0.drop_last().drop_last().push(
                        Node::Operation {
                            operator: resto[0],
                            left: Box::new(pilha0[pilha0.len() - 2]),
                            right: Box::new(pilha0.last()),
                        },
                    ));
                }
            }
            i = i + 1;
        }
        proof {
            assert(tokens@.skip(tokens@.len() as int).len() == 0);
        }
        if stack.len() == 1 {
            let root = match stack.pop() {
                Some(n) => n,
                None => unreached(),
            };
            Ok(Tree { root })
        } else if stack.len() == 0 {
            Err(ErroEstrutural::OperandoFaltando)
        } else {
            Err(ErroEstrutural::OperadorFaltando)
        }
    }

    /// Fully parenthesized rendering of the tree, as `renderizar_no` gives it.
    pub fn to_string(&self) -> (r: String)
        ensures
            r@ == renderizar_no(self.root),
    {
        self.root.to_string()
    }
}

impl Node {
    fn to_string(&self) -> (r: String)
        ensures
            r@ == renderizar_no(*self),
        decreases *self,
    {
        match self {
            Node::Texto(value) => value.clone(),
            Node::Operation { operator, left, right } => {
                proof {
                    reveal_strlit("(");
                    reveal_strlit(")");
                    reveal_strlit(" ");
                }
                let left_expr = left.to_string();
                let right_expr = right.to_string();
                let mut r = String::from_str("(");
                r.append(left_expr.as_str());
                r.append(" ");
                r.append(operator.as_str());
                r.append(" ");
                r.append(right_expr.as_str());
                r.append(")");
                proof {
                    assert(r@ =~= renderizar_no(*self));
                }
                r
            },
        }
    }
}

} // verus!
