//! Tokenizer: scans raw text into a sequence of typed lexical tokens, each
//! carrying the span of characters it was read from.

use vstd::prelude::*;
use vstd::multiset::Multiset;
use vstd::string::*;

verus! {

// ---------------------------------------------------------------------------
// Character classes
// ---------------------------------------------------------------------------

/// A decimal digit.
pub open spec fn eh_digito(c: char) -> bool {
    '0' <= c && c <= '9'
}

/// The numeric value of a decimal digit.
pub open spec fn valor_digito(c: char) -> int {
    c as int - '0' as int
}

/// Unicode whitespace (the characters with the White_Space property).
pub open spec fn eh_espaco(c: char) -> bool {
    ||| c == ' '
    ||| c == '\t'
    ||| c == '\n'
    ||| c == '\r'
    ||| c == '\u{b}'
    ||| c == '\u{c}'
    ||| c == '\u{85}'
    ||| c == '\u{a0}'
    ||| c == '\u{1680}'
    ||| ('\u{2000}' <= c && c <= '\u{200a}')
    ||| c == '\u{2028}'
    ||| c == '\u{2029}'
    ||| c == '\u{202f}'
    ||| c == '\u{205f}'
    ||| c == '\u{3000}'
}

/// The token kind a lone punctuation character scans to.
pub open spec fn tipo_pontuacao(c: char) -> TokenKind {
    if c == '+' {
        TokenKind::Mais
    } else if c == '-' {
        TokenKind::Menos
    } else if c == '*' {
        TokenKind::Asterisco
    } else if c == '/' {
        TokenKind::Barra
    } else if c == '(' {
        TokenKind::ParentesesEsquerdo
    } else if c == ')' {
        TokenKind::ParentesesDireito
    } else {
        TokenKind::Erro
    }
}

// ---------------------------------------------------------------------------
// Digit runs and their decimal value
// ---------------------------------------------------------------------------

/// First position at or after `pos` that does not hold a digit: the end of the
/// maximal digit run starting at `pos`.
pub open spec fn fim_do_numero(s: Seq<char>, pos: int) -> int
    decreases s.len() - pos,
{
    if 0 <= pos < s.len() && eh_digito(s[pos]) {
        fim_do_numero(s, pos + 1)
    } else {
        pos
    }
}

/// Base-10 value of a sequence of digits.
pub open spec fn valor_decimal(s: Seq<char>) -> int
    decreases s.len(),
{
    if s.len() == 0 {
        0
    } else {
        valor_decimal(s.drop_last()) * 10 + valor_digito(s.last())
    }
}

pub proof fn lema_limites_fim_do_numero(s: Seq<char>, pos: int)
    requires
        0 <= pos <= s.len(),
    ensures
        pos <= fim_do_numero(s, pos) <= s.len(),
        pos < s.len() && eh_digito(s[pos]) ==> pos < fim_do_numero(s, pos),
    decreases s.len() - pos,
{
    if pos < s.len() && eh_digito(s[pos]) {
        lema_limites_fim_do_numero(s, pos + 1);
    }
}

pub proof fn lema_valor_decimal_nao_negativo(s: Seq<char>)
    requires
        forall|i: int| 0 <= i < s.len() ==> eh_digito(s[i]),
    ensures
        valor_decimal(s) >= 0,
    decreases s.len(),
{
    if s.len() > 0 {
        lema_valor_decimal_nao_negativo(s.drop_last());
    }
}

// ---------------------------------------------------------------------------
// The token starting at a position
// ---------------------------------------------------------------------------

/// End position of the token that starts at `pos` (for `0 <= pos < s.len()`).
pub open spec fn fim_token(s: Seq<char>, pos: int) -> int {
    if eh_digito(s[pos]) {
        fim_do_numero(s, pos)
    } else {
        pos + 1
    }
}

/// Kind of the token that starts at `pos` (for `0 <= pos < s.len()`): a digit
/// run whose value fits an `i64` scans to `Numero`, one that does not fit
/// scans to `Erro`; whitespace and punctuation scan to their own kinds.
pub open spec fn tipo_token(s: Seq<char>, pos: int) -> TokenKind {
    if eh_digito(s[pos]) {
        let v = valor_decimal(s.subrange(pos, fim_do_numero(s, pos)));
        if v <= i64::MAX {
            TokenKind::Numero(v as i64)
        } else {
            TokenKind::Erro
        }
    } else if eh_espaco(s[pos]) {
        TokenKind::EspacoEmBranco
    } else {
        tipo_pontuacao(s[pos])
    }
}

/// The token starting at `pos` agrees with `t` in kind and span.
pub open spec fn token_ok(s: Seq<char>, pos: int, t: Token) -> bool {
    &&& t.kind == tipo_token(s, pos)
    &&& t.span.start == pos
    &&& t.span.end == fim_token(s, pos)
    &&& t.span.literal@ == s.subrange(pos, fim_token(s, pos))
}

/// Start positions of the tokens from `pos` on that the filtering stage keeps:
/// whitespace is dropped, and the sequence stops at the end of the input.
pub open spec fn posicoes_significativas(s: Seq<char>, pos: int) -> Seq<int>
    decreases s.len() - pos,
    when 0 <= pos
    via lema_posicoes_significativas_decresce
{
    if pos >= s.len() {
        seq![]
    } else if tipo_token(s, pos) == TokenKind::EspacoEmBranco {
        posicoes_significativas(s, fim_token(s, pos))
    } else {
        seq![pos] + posicoes_significativas(s, fim_token(s, pos))
    }
}

#[via_fn]
proof fn lema_posicoes_significativas_decresce(s: Seq<char>, pos: int) {
    if 0 <= pos < s.len() {
        lema_limites_fim_do_numero(s, pos);
    }
}

/// No token from `pos` to the end of the input scans to `Erro`.
pub open spec fn entrada_valida(s: Seq<char>, pos: int) -> bool {
    forall|i: int|
        0 <= i < posicoes_significativas(s, pos).len() ==> tipo_token(
            s,
            posicoes_significativas(s, pos)[i],
        ) != TokenKind::Erro
}

// ---------------------------------------------------------------------------
// Spans and tokens
// ---------------------------------------------------------------------------

/// A half-open range `[start, end)` of character positions in the input,
/// together with the text it covers.
#[derive(Debug, Clone, PartialEq, Eq)]
pub struct TextSpan {
    pub start: usize,
    pub end: usize,
    pub literal: String,
}

/// Spans in non-decreasing order of their start positions.
pub open spec fn ordenados_por_inicio(s: Seq<TextSpan>) -> bool {
    forall|a: int, b: int| 0 <= a < b < s.len() ==> s[a].start <= s[b].start
}

/// The literals of a span sequence, concatenated in order.
pub open spec fn literais_concatenados(s: Seq<TextSpan>) -> Seq<char>
    decreases s.len(),
{
    if s.len() == 0 {
        seq![]
    } else {
        literais_concatenados(s.drop_last()) + s.last().literal@
    }
}

proof fn lema_multiset_insercao(s: Seq<TextSpan>, k: int, v: TextSpan)
    requires
        0 <= k <= s.len(),
    ensures
        s.insert(k, v).to_multiset() == s.to_multiset().insert(v),
{
    broadcast use vstd::seq_lib::group_to_multiset_ensures;

    let t = s.insert(k, v);
    assert(t.remove(k) =~= s);
    assert(t[k] == v);
    assert(t.remove(k).to_multiset() =~= t.to_multiset().remove(v));
    assert(t.contains(v));
    assert(t.to_multiset().count(v) > 0);
    assert(t.to_multiset() =~= s.to_multiset().insert(v));
}

impl TextSpan {
    pub fn new(start: usize, end: usize, literal: String) -> (r: Self)
        ensures
            r.start == start,
            r.end == end,
            r.literal == literal,
    {
        Self { start, end, literal }
    }

    /// Combines spans into one: sorted by start position, the combined span
    /// runs from the first one's start to the last one's end and carries
    /// their literals concatenated in that order.
    pub fn combinar(mut spans: Vec<TextSpan>) -> (r: TextSpan)
        requires
            spans@.len() > 0,
        ensures
            exists|ordem: Seq<TextSpan>|
                {
                    &&& ordem.to_multiset() == spans@.to_multiset()
                    &&& ordem.len() == spans@.len()
                    &&& ordenados_por_inicio(ordem)
                    &&& r.start == ordem[0].start
                    &&& r.end == ordem[ordem.len() - 1].end
                    &&& r.literal@ == literais_concatenados(ordem)
                },
    {
        broadcast use vstd::seq_lib::group_to_multiset_ensures;

        let ghost alvo = spans@.to_multiset();
        let ghost total = spans@.len();
        let mut ordenados: Vec<TextSpan> = Vec::new();
        proof {
            assert(ordenados@.to_multiset().add(spans@.to_multiset()) =~= alvo);
        }
        loop
            invariant
                ordenados@.to_multiset().add(spans@.to_multiset()) == alvo,
                ordenados@.len() + spans@.len() == total,
                ordenados_por_inicio(ordenados@),
            ensures
                spans@.len() == 0,
                ordenados@.to_multiset() == alvo,
                ordenados@.len() == total,
                ordenados_por_inicio(ordenados@),
            decreases spans@.len(),
        {
            let ghost spans_antes = spans@;
            let span = match spans.pop() {
                Some(span) => span,
                None => {
                    proof {
                        broadcast use vstd::seq_lib::group_to_multiset_ensures;
                        broadcast use vstd::multiset::group_multiset_axioms;

                        assert(spans@ =~= Seq::<TextSpan>::empty());
                        assert(spans@.to_multiset() =~= Multiset::<TextSpan>::empty());
                        assert(ordenados@.to_multiset() =~= alvo);
                    }
                    break ;
                },
            };
            proof {
                broadcast use vstd::seq_lib::group_to_multiset_ensures;
                broadcast use vstd::multiset::group_multiset_axioms;

                assert(spans_antes =~= spans@.push(span));
                assert((spans@.push(span)).to_multiset() =~= spans@.to_multiset().insert(span));
                assert(spans_antes.to_multiset() == spans@.to_multiset().insert(span));
            }
            let mut k: usize = 0;
            while k < ordenados.len() && ordenados[k].start <= span.start
                invariant
                    k <= ordenados@.len(),
                    forall|a: int| 0 <= a < k ==> ordenados@[a].start <= span.start,
                decreases ordenados@.len() - k,
            {
                k = k + 1;
            }
            let ghost antes = ordenados@;
            let ghost pos = k as int;
            ordenados.insert(k, span);
            proof {
                broadcast use vstd::multiset::group_multiset_axioms;

                lema_multiset_insercao(antes, pos, span);
                assert(ordenados@.to_multiset().add(spans@.to_multiset()) =~= alvo);
                assert(ordenados_por_inicio(ordenados@)) by {
                    assert forall|a: int, b: int|
                        0 <= a < b < ordenados@.len() implies ordenados@[a].start
                        <= ordenados@[b].start by {
                        if a < pos {
                            assert(ordenados@[a] == antes[a]);
                        } else if a == pos {
                            assert(ordenados@[a] == span);
                        } else {
                            assert(ordenados@[a] == antes[a - 1]);
                        }
                        if b < pos {
                            assert(ordenados@[b] == antes[b]);
                        } else if b == pos {
                            assert(ordenados@[b] == span);
                        } else {
                            assert(ordenados@[b] == antes[b - 1]);
                        }
                        if a == pos && b > pos {
                            assert(antes[pos].start > span.start);
                        }
                    }
                }
            }
        }
        let start = ordenados[0].start;
        let end = ordenados[ordenados.len() - 1].end;
        let mut literal = String::new();
        let mut i: usize = 0;
        proof {
            assert(literal@ =~= literais_concatenados(ordenados@.take(0)));
        }
        while i < ordenados.len()
            invariant
                i <= ordenados@.len(),
                literal@ == literais_concatenados(ordenados@.take(i as int)),
            decreases ordenados@.len() - i,
        {
            literal.append(ordenados[i].literal.as_str());
            proof {
                assert(ordenados@.take(i as int + 1).drop_last() =~= ordenados@.take(i as int));
                assert(ordenados@.take(i as int + 1).last() == ordenados@[i as int]);
            }
            i = i + 1;
        }
        proof {
            assert(ordenados@.take(ordenados@.len() as int) =~= ordenados@);
        }
        let r = TextSpan::new(start, end, literal);
        proof {
            let ordem = ordenados@;
            assert(ordem.to_multiset() == alvo && ordem.len() == total && ordenados_por_inicio(
                ordem,
            ) && r.start == ordem[0].start && r.end == ordem[ordem.len() - 1].end && r.literal@
                == literais_concatenados(ordem));
        }
        r
    }

    pub fn comprimento(&self) -> (r: usize)
        requires
            self.start <= self.end,
        ensures
            r == self.end - self.start,
    {
        self.end - self.start
    }

    pub fn literal<'a>(&self, input: &'a str) -> (r: &'a str)
        requires
            self.start <= self.end <= input@.len(),
        ensures
            r@ == input@.subrange(self.start as int, self.end as int),
    {
        input.substring_char(self.start, self.end)
    }
}

#[derive(Debug, Clone, Copy, PartialEq, Eq, Structural)]
pub enum TokenKind {
    Numero(i64),
    Mais,
    Menos,
    Asterisco,
    Barra,
    FimDeArquivo,
    Erro,
    EspacoEmBranco,
    ParentesesEsquerdo,
    ParentesesDireito,
}

#[derive(Debug, Clone, PartialEq, Eq)]
pub struct Token {
    pub kind: TokenKind,
    pub span: TextSpan,
}

impl Token {
    pub fn new(kind: TokenKind, span: TextSpan) -> (r: Self)
        ensures
            r.kind == kind,
            r.span == span,
    {
        Self { kind, span }
    }
}

// ---------------------------------------------------------------------------
// The lexer
// ---------------------------------------------------------------------------

pub struct Lexer<'a> {
    pub input: &'a str,
    pub current_pos: usize,
}

impl<'a> Lexer<'a> {
    pub fn new(input: &'a str) -> (r: Self)
        ensures
            r.input@ == input@,
            r.current_pos == 0,
    {
        Self { input, current_pos: 0 }
    }

    /// Scans the token at the current position: one `FimDeArquivo` token once
    /// the whole input has been consumed, then `None`; otherwise exactly the
    /// token that starts at the current position, whose span covers the
    /// characters consumed for it.
    pub fn proximo_token(&mut self) -> (r: Option<Token>)
        requires
            old(self).input@.len() < usize::MAX,
        ensures
            final(self).input@ == old(self).input@,
            ({
                let s = old(self).input@;
                let pos = old(self).current_pos as int;
                if pos == s.len() {
                    &&& final(self).current_pos == pos + 1
                    &&& r matches Some(t) && t.kind == TokenKind::FimDeArquivo && t.span.start
                        == 0 && t.span.end == 0 && t.span.literal@ == seq!['\0']
                } else if pos > s.len() {
                    &&& r is None
                    &&& final(self).current_pos == pos
                } else {
                    &&& final(self).current_pos == fim_token(s, pos)
                    &&& r matches Some(t) && token_ok(s, pos, t)
                }
            }),
    {
        let ghost s = self.input@;
        let ghost pos0 = self.current_pos as int;
        let comprimento_total = self.input.unicode_len();
        if self.current_pos == comprimento_total {
            self.current_pos = self.current_pos + 1;
            proof {
                reveal_strlit("\0");
            }
            return Some(
                Token::new(TokenKind::FimDeArquivo, TextSpan::new(0, 0, String::from_str("\0"))),
            );
        }
        if self.current_pos > comprimento_total {
            return None;
        }
        let start = self.current_pos;
        proof {
            lema_limites_fim_do_numero(s, pos0);
        }
        let c = self.input.get_char(self.current_pos);
        let kind = if Self::eh_numero(&c) {
            match self.consumir_numero() {
                Some(numero) => TokenKind::Numero(numero),
                None => TokenKind::Erro,
            }
        } else if Self::eh_espaco_em_branco(&c) {
            self.consumir();
            TokenKind::EspacoEmBranco
        } else {
            self.consumir_pontuacao(c)
        };
        let end = self.current_pos;
        let literal = String::from_str(self.input.substring_char(start, end));
        let span = TextSpan::new(start, end, literal);
        Some(Token::new(kind, span))
    }

    fn consumir_pontuacao(&mut self, c: char) -> (r: TokenKind)
        requires
            old(self).current_pos < old(self).input@.len(),
        ensures
            final(self).input@ == old(self).input@,
            final(self).current_pos == old(self).current_pos + 1,
            r == tipo_pontuacao(c),
    {
        self.consumir();
        if c == '+' {
            TokenKind::Mais
        } else if c == '-' {
            TokenKind::Menos
        } else if c == '*' {
            TokenKind::Asterisco
        } else if c == '/' {
            TokenKind::Barra
        } else if c == '(' {
            TokenKind::ParentesesEsquerdo
        } else if c == ')' {
            TokenKind::ParentesesDireito
        } else {
            TokenKind::Erro
        }
    }

    fn eh_numero(c: &char) -> (r: bool)
        ensures
            r == eh_digito(*c),
    {
        let u = *c as u32;
        48 <= u && u <= 57
    }

    fn eh_espaco_em_branco(c: &char) -> (r: bool)
        ensures
            r == eh_espaco(*c),
    {
        let u = *c as u32;
        u == 0x20 || u == 0x9 || u == 0xa || u == 0xd || u == 0xb || u == 0xc || u == 0x85 || u
            == 0xa0 || u == 0x1680 || (0x2000 <= u && u <= 0x200a) || u == 0x2028 || u == 0x2029
            || u == 0x202f || u == 0x205f || u == 0x3000
    }

    fn caractere_atual(&self) -> (r: Option<char>)
        ensures
            self.current_pos < self.input@.len() ==> r == Some(
                self.input@[self.current_pos as int],
            ),
            self.current_pos >= self.input@.len() ==> r is None,
    {
        if self.current_pos < self.input.unicode_len() {
            Some(self.input.get_char(self.current_pos))
        } else {
            None
        }
    }

    fn consumir(&mut self) -> (r: Option<char>)
        ensures
            final(self).input@ == old(self).input@,
            old(self).current_pos < old(self).input@.len() ==> {
                &&& final(self).current_pos == old(self).current_pos + 1
                &&& r == Some(old(self).input@[old(self).current_pos as int])
            },
            old(self).current_pos >= old(self).input@.len() ==> {
                &&& final(self).current_pos == old(self).current_pos
                &&& r is None
            },
    {
        if self.current_pos >= self.input.unicode_len() {
            return None;
        }
        let c = self.caractere_atual();
        self.current_pos = self.current_pos + 1;
        c
    }

    /// Consumes the maximal digit run at the current position, accumulating
    /// its base-10 value; yields `None` when the value does not fit an `i64`.
    fn consumir_numero(&mut self) -> (r: Option<i64>)
        requires
            old(self).current_pos <= old(self).input@.len(),
        ensures
            final(self).input@ == old(self).input@,
            final(self).current_pos == fim_do_numero(
                old(self).input@,
                old(self).current_pos as int,
            ),
            ({
                let v = valor_decimal(
                    old(self).input@.subrange(
                        old(self).current_pos as int,
                        fim_do_numero(old(self).input@, old(self).current_pos as int),
                    ),
                );
                if v <= i64::MAX {
                    r == Some(v as i64)
                } else {
                    r is None
                }
            }),
    {
        let ghost s = self.input@;
        let ghost pos0 = self.current_pos as int;
        proof {
            lema_limites_fim_do_numero(s, pos0);
        }
        let mut numero: i64 = 0;
        let mut estouro: bool = false;
        loop
            invariant
                self.input@ == s,
                0 <= pos0 <= self.current_pos <= s.len(),
                forall|i: int| pos0 <= i < self.current_pos ==> eh_digito(s[i]),
                fim_do_numero(s, self.current_pos as int) == fim_do_numero(s, pos0),
                numero >= 0,
                !estouro ==> numero == valor_decimal(s.subrange(pos0, self.current_pos as int)),
                estouro ==> valor_decimal(s.subrange(pos0, self.current_pos as int)) > i64::MAX,
            ensures
                self.input@ == s,
                self.current_pos as int == fim_do_numero(s, pos0),
                !estouro ==> numero == valor_decimal(s.subrange(pos0, self.current_pos as int)),
                estouro ==> valor_decimal(s.subrange(pos0, self.current_pos as int)) > i64::MAX,
            decreases s.len() - self.current_pos,
        {
            let ghost cur = self.current_pos as int;
            let c = match self.caractere_atual() {
                Some(c) => c,
                None => { break ; },
            };
            if !Self::eh_numero(&c) {
                break ;
            }
            self.consumir();
            let d = (c as u32 - 48) as i64;
            proof {
                assert(s.subrange(pos0, cur + 1).drop_last() =~= s.subrange(pos0, cur));
                assert(s.subrange(pos0, cur + 1).last() == s[cur]);
                assert(valor_decimal(s.subrange(pos0, cur + 1)) == valor_decimal(
                    s.subrange(pos0, cur),
                ) * 10 + valor_digito(s[cur]));
            }
            if !estouro {
                match numero.checked_mul(10) {
                    Some(m) => match m.checked_add(d) {
                        Some(soma) => {
                            numero = soma;
                        },
                        None => {
                            estouro = true;
                        },
                    },
                    None => {
                        estouro = true;
                    },
                }
            } else {
                proof {
                    let antes = valor_decimal(s.subrange(pos0, cur));
                    assert(antes * 10 >= antes + antes);
                }
            }
        }
        if estouro {
            None
        } else {
            Some(numero)
        }
    }
}

/// Token filter: scans the whole input, drops whitespace tokens, stops just
/// before the end-of-input token, and reports failure the moment an invalid
/// token is scanned. On success `tokens` has gained exactly the meaningful
/// tokens of the input, in order; it is never a partial sequence presented as
/// success.
pub fn tokenize(lexer: &mut Lexer, tokens: &mut Vec<Token>) -> (r: bool)
    requires
        old(lexer).input@.len() < usize::MAX,
        old(lexer).current_pos <= old(lexer).input@.len(),
    ensures
        final(lexer).input@ == old(lexer).input@,
        final(tokens)@.len() >= old(tokens)@.len(),
        final(tokens)@.subrange(0, old(tokens)@.len() as int) == old(tokens)@,
        ({
            let s = old(lexer).input@;
            let ps = posicoes_significativas(s, old(lexer).current_pos as int);
            &&& r == entrada_valida(s, old(lexer).current_pos as int)
            &&& r ==> {
                &&& final(tokens)@.len() == old(tokens)@.len() + ps.len()
                &&& forall|i: int|
                    0 <= i < ps.len() ==> token_ok(
                        s,
                        ps[i],
                        final(tokens)@[old(tokens)@.len() + i],
                    )
            }
        }),
{
    let ghost s = lexer.input@;
    let ghost pos0 = lexer.current_pos as int;
    let ghost n0 = tokens@.len() as int;
    let ghost mut feitas: Seq<int> = seq![];
    proof {
        assert(posicoes_significativas(s, pos0) =~= feitas + posicoes_significativas(s, pos0));
        assert(tokens@.subrange(0, n0) =~= old(tokens)@);
    }
    loop
        invariant_except_break
            lexer.current_pos <= s.len(),
        invariant
            s == old(lexer).input@,
            pos0 == old(lexer).current_pos as int,
            n0 == old(tokens)@.len() as int,
            lexer.input@ == s,
            s.len() < usize::MAX,
            tokens@.len() == n0 + feitas.len(),
            tokens@.subrange(0, n0) == old(tokens)@,
            posicoes_significativas(s, pos0) == feitas + posicoes_significativas(
                s,
                lexer.current_pos as int,
            ),
            forall|i: int|
                0 <= i < feitas.len() ==> token_ok(s, feitas[i], tokens@[n0 + i]) && tipo_token(
                    s,
                    feitas[i],
                ) != TokenKind::Erro && tipo_token(s, feitas[i]) != TokenKind::EspacoEmBranco,
        ensures
            lexer.input@ == s,
            tokens@.len() >= n0,
            tokens@.subrange(0, n0) == old(tokens)@,
            ({
                let ps = posicoes_significativas(s, pos0);
                &&& forall|i: int| 0 <= i < ps.len() ==> tipo_token(s, ps[i]) != TokenKind::Erro
                &&& tokens@.len() == n0 + ps.len()
                &&& forall|i: int| 0 <= i < ps.len() ==> token_ok(s, ps[i], tokens@[n0 + i])
            }),
        decreases s.len() + 1 - lexer.current_pos,
    {
        let ghost cur = lexer.current_pos as int;
        proof {
            if cur < s.len() {
                lema_limites_fim_do_numero(s, cur);
            }
        }
        let token = match lexer.proximo_token() {
            Some(token) => token,
            None => { break ; },
        };
        if token.kind == TokenKind::EspacoEmBranco {
            proof {
                assert(posicoes_significativas(s, cur) == posicoes_significativas(
                    s,
                    fim_token(s, cur),
                ));
            }
            continue ;
        }
        if token.kind == TokenKind::FimDeArquivo {
            proof {
                assert(cur == s.len());
                assert(posicoes_significativas(s, cur) =~= Seq::<int>::empty());
                assert(posicoes_significativas(s, pos0) =~= feitas);
                assert(posicoes_significativas(s, lexer.current_pos as int) =~= Seq::<
                    int,
                >::empty());
            }
            break ;
        }
        if token.kind == TokenKind::Erro {
            proof {
                let ps = posicoes_significativas(s, pos0);
                assert(ps[feitas.len() as int] == cur);
                assert(tipo_token(s, ps[feitas.len() as int]) == TokenKind::Erro);
            }
            return false;
        }
        tokens.push(token);
        proof {
            feitas = feitas.push(cur);
            assert(posicoes_significativas(s, cur) == seq![cur] + posicoes_significativas(
                s,
                fim_token(s, cur),
            ));
            assert(posicoes_significativas(s, pos0) =~= feitas + posicoes_significativas(
                s,
                lexer.current_pos as int,
            ));
            assert(tokens@.subrange(0, n0) =~= old(tokens)@);
        }
    }
    proof {
        let ps = posicoes_significativas(s, pos0);
        assert(entrada_valida(s, pos0) == (forall|i: int|
            0 <= i < ps.len() ==> tipo_token(s, ps[i]) != TokenKind::Erro));
    }
    true
}

} // verus!
