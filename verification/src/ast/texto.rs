//! Verified text utilities for the evaluator's trace: decimal rendering of
//! integers, substring search, and leftmost non-overlapping replacement.

use vstd::prelude::*;
use vstd::string::*;

verus! {

// ---------------------------------------------------------------------------
// Decimal rendering
// ---------------------------------------------------------------------------

/// The digit character for a value below ten.
pub open spec fn digito_char(d: int) -> char {
    if d == 0 {
        '0'
    } else if d == 1 {
        '1'
    } else if d == 2 {
        '2'
    } else if d == 3 {
        '3'
    } else if d == 4 {
        '4'
    } else if d == 5 {
        '5'
    } else if d == 6 {
        '6'
    } else if d == 7 {
        '7'
    } else if d == 8 {
        '8'
    } else {
        '9'
    }
}

/// Decimal rendering of a non-negative integer, most significant digit first.
pub open spec fn texto_nat(n: int) -> Seq<char>
    decreases n,
{
    if n < 10 {
        seq![digito_char(n)]
    } else {
        texto_nat(n / 10) + seq![digito_char(n % 10)]
    }
}

/// Decimal rendering of an integer: a minus sign for negative values, then
/// the digits of the magnitude.
pub open spec fn texto_int(v: int) -> Seq<char> {
    if v < 0 {
        seq!['-'] + texto_nat(-v)
    } else {
        texto_nat(v)
    }
}

fn digito_str(d: u64) -> (r: &'static str)
    requires
        d < 10,
    ensures
        r@ == seq![digito_char(d as int)],
{
    proof {
        reveal_strlit("0");
        reveal_strlit("1");
        reveal_strlit("2");
        reveal_strlit("3");
        reveal_strlit("4");
        reveal_strlit("5");
        reveal_strlit("6");
        reveal_strlit("7");
        reveal_strlit("8");
        reveal_strlit("9");
    }
    let r = if d == 0 {
        "0"
    } else if d == 1 {
        "1"
    } else if d == 2 {
        "2"
    } else if d == 3 {
        "3"
    } else if d == 4 {
        "4"
    } else if d == 5 {
        "5"
    } else if d == 6 {
        "6"
    } else if d == 7 {
        "7"
    } else if d == 8 {
        "8"
    } else {
        "9"
    };
    proof {
        assert(r@ =~= seq![digito_char(d as int)]);
    }
    r
}

fn texto_do_nat(n: u64) -> (r: String)
    ensures
        r@ == texto_nat(n as int),
    decreases n,
{
    if n < 10 {
        String::from_str(digito_str(n))
    } else {
        let mut s = texto_do_nat(n / 10);
        s.append(digito_str(n % 10));
        proof {
            assert(s@ =~= texto_nat(n as int));
        }
        s
    }
}

/// Decimal rendering of an `i64`, exactly as `texto_int` describes it.
pub fn texto_do_valor(v: i64) -> (r: String)
    ensures
        r@ == texto_int(v as int),
{
    if v >= 0 {
        texto_do_nat(v as u64)
    } else {
        let magnitude: u64 = ((-(v + 1)) as u64) + 1;
        proof {
            assert(magnitude as int == -(v as int));
            reveal_strlit("-");
        }
        let mut s = String::from_str("-");
        let digitos = texto_do_nat(magnitude);
        s.append(digitos.as_str());
        proof {
            assert(s@ =~= texto_int(v as int));
        }
        s
    }
}

// ---------------------------------------------------------------------------
// Substring search
// ---------------------------------------------------------------------------

/// `pat` occurs somewhere in `s`.
pub open spec fn contem_padrao(s: Seq<char>, pat: Seq<char>) -> bool {
    exists|i: int| 0 <= i && i + pat.len() <= s.len() && #[trigger] s.subrange(i, i + pat.len()) == pat
}

fn coincide_em(s: &str, i: usize, pat: &str) -> (r: bool)
    requires
        i + pat@.len() <= s@.len(),
    ensures
        r == (s@.subrange(i as int, i as int + pat@.len()) == pat@),
{
    let tamanho_s = s.unicode_len();
    let tamanho = pat.unicode_len();
    let mut j: usize = 0;
    while j < tamanho
        invariant
            tamanho_s == s@.len(),
            i + tamanho <= tamanho_s,
            tamanho == pat@.len(),
            j <= tamanho,
            forall|k: int| 0 <= k < j ==> s@[i + k] == pat@[k],
        decreases tamanho - j,
    {
        if s.get_char(i + j) != pat.get_char(j) {
            proof {
                assert(s@.subrange(i as int, i as int + pat@.len())[j as int] != pat@[j as int]);
            }
            return false;
        }
        j = j + 1;
    }
    proof {
        assert(s@.subrange(i as int, i as int + pat@.len()) =~= pat@);
    }
    true
}

/// Whether `pat` occurs in `s`.
pub fn contem_str(s: &str, pat: &str) -> (r: bool)
    ensures
        r == contem_padrao(s@, pat@),
{
    let tamanho_s = s.unicode_len();
    let tamanho_p = pat.unicode_len();
    if tamanho_p > tamanho_s {
        return false;
    }
    if tamanho_p == 0 {
        proof {
            assert(s@.subrange(0, 0 + pat@.len() as int) =~= pat@);
        }
        return true;
    }
    let limite = tamanho_s - tamanho_p;
    let mut i: usize = 0;
    loop
        invariant
            tamanho_s == s@.len(),
            tamanho_p == pat@.len(),
            1 <= tamanho_p,
            limite == tamanho_s - tamanho_p,
            i <= limite + 1,
            forall|j: int|
                0 <= j < i ==> #[trigger] s@.subrange(j, j + pat@.len()) != pat@,
        ensures
            i <= limite ==> s@.subrange(i as int, i as int + pat@.len()) == pat@,
            i > limite ==> forall|j: int|
                0 <= j < i ==> #[trigger] s@.subrange(j, j + pat@.len()) != pat@,
        decreases limite + 1 - i,
    {
        if i > limite {
            break ;
        }
        if coincide_em(s, i, pat) {
            break ;
        }
        i = i + 1;
    }
    if i <= limite {
        proof {
            assert(0 <= i as int && i as int + pat@.len() <= s@.len() && s@.subrange(
                i as int,
                i as int + pat@.len(),
            ) == pat@);
        }
        true
    } else {
        false
    }
}

// ---------------------------------------------------------------------------
// Replacement
// ---------------------------------------------------------------------------

/// Replaces every non-overlapping occurrence of `pat` in `s` with `repl`,
/// scanning left to right and never rescanning replaced text.
pub open spec fn substituir(s: Seq<char>, pat: Seq<char>, repl: Seq<char>) -> Seq<char>
    decreases s.len(),
    when pat.len() > 0
{
    if s.len() < pat.len() {
        s
    } else if s.subrange(0, pat.len() as int) == pat {
        repl + substituir(s.skip(pat.len() as int), pat, repl)
    } else {
        seq![s[0]] + substituir(s.skip(1), pat, repl)
    }
}

/// Replacement, exactly as `substituir` describes it.
pub fn substituir_todas(s: &str, pat: &str, repl: &str) -> (r: String)
    requires
        pat@.len() > 0,
    ensures
        r@ == substituir(s@, pat@, repl@),
{
    let tamanho_s = s.unicode_len();
    let tamanho_p = pat.unicode_len();
    let mut saida = String::new();
    let mut i: usize = 0;
    proof {
        assert(s@.skip(0) =~= s@);
        assert(saida@ + substituir(s@, pat@, repl@) =~= substituir(s@, pat@, repl@));
    }
    while i < tamanho_s
        invariant
            tamanho_s == s@.len(),
            tamanho_p == pat@.len(),
            tamanho_p > 0,
            i <= tamanho_s,
            saida@ + substituir(s@.skip(i as int), pat@, repl@) == substituir(s@, pat@, repl@),
        decreases tamanho_s - i,
    {
        let ghost resto = s@.skip(i as int);
        if tamanho_p <= tamanho_s - i && coincide_em(s, i, pat) {
            proof {
                assert(resto.subrange(0, pat@.len() as int) =~= s@.subrange(
                    i as int,
                    i as int + pat@.len(),
                ));
                assert(resto.skip(pat@.len() as int) =~= s@.skip(i as int + pat@.len()));
                assert(substituir(resto, pat@, repl@) == repl@ + substituir(
                    s@.skip(i as int + pat@.len()),
                    pat@,
                    repl@,
                ));
                assert((saida@ + repl@) + substituir(s@.skip(i as int + pat@.len()), pat@, repl@)
                    =~= saida@ + substituir(resto, pat@, repl@));
            }
            saida.append(repl);
            i = i + tamanho_p;
        } else {
            proof {
                if i + tamanho_p <= tamanho_s as int {
                    assert(resto.subrange(0, pat@.len() as int) =~= s@.subrange(
                        i as int,
                        i as int + pat@.len(),
                    ));
                    assert(resto.subrange(0, pat@.len() as int) != pat@);
                } else {
                    assert(resto.len() < pat@.len());
                }
                assert(resto[0] == s@[i as int]);
                assert(resto.skip(1) =~= s@.skip(i as int + 1));
                if resto.len() >= pat@.len() {
                    assert(substituir(resto, pat@, repl@) == seq![resto[0]] + substituir(
                        resto.skip(1),
                        pat@,
                        repl@,
                    ));
                } else {
                    assert(substituir(resto, pat@, repl@) == resto);
                    assert(substituir(resto.skip(1), pat@, repl@) == resto.skip(1));
                    assert(resto =~= seq![resto[0]] + resto.skip(1));
                }
                assert((saida@ + seq![s@[i as int]]) + substituir(
                    s@.skip(i as int + 1),
                    pat@,
                    repl@,
                ) =~= saida@ + substituir(resto, pat@, repl@));
            }
            let um = s.substring_char(i, i + 1);
            proof {
                assert(um@ =~= seq![s@[i as int]]);
            }
            saida.append(um);
            i = i + 1;
        }
    }
    proof {
        assert(s@.skip(tamanho_s as int).len() == 0);
        assert(substituir(s@.skip(tamanho_s as int), pat@, repl@) == s@.skip(tamanho_s as int));
        assert(saida@ =~= saida@ + s@.skip(tamanho_s as int));
    }
    saida
}

} // verus!
