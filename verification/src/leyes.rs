use vstd::prelude::*;
use crate::texto::{
    aislado, de_palabra, empieza_con, es_espacio, es_parentesis, fichas, lema_quitar_concat,
    quitar, recortar_final, recortar_inicio, unir,
};

verus! {

/// A token as the tokenizer produces it: a single parenthesis (when parentheses stand
/// apart), or a non-empty run of word characters.
pub open spec fn ficha_valida(w: Seq<char>, parentesis: bool) -> bool {
    &&& w.len() > 0
    &&& (w.len() == 1 && aislado(w[0], parentesis)) || (forall|k: int|
        0 <= k < w.len() ==> de_palabra(#[trigger] w[k], parentesis))
}

/// Whether `s` keeps the character `c`: it is no whitespace.
pub open spec fn no_espacio(c: char) -> bool {
    !es_espacio(c)
}

/// Every token is well formed, and the tokens, laid end to end, give back the input
/// with its whitespace removed: nothing but whitespace is dropped, and no character
/// moves.
pub proof fn ley_fichas_cubren_la_entrada(s: Seq<char>, parentesis: bool)
    ensures
        forall|k: int|
            0 <= k < fichas(s, parentesis).len() ==> ficha_valida(
                #[trigger] fichas(s, parentesis)[k],
                parentesis,
            ),
        fichas(s, parentesis).flatten() == s.filter(|c: char| no_espacio(c)),
{
    lema_fichas_estructura(s, parentesis);
    fichas(s, parentesis).lemma_flatten_and_flatten_alt_are_equivalent();
}

proof fn lema_fichas_estructura(s: Seq<char>, parentesis: bool)
    ensures
        forall|k: int|
            0 <= k < fichas(s, parentesis).len() ==> ficha_valida(
                #[trigger] fichas(s, parentesis)[k],
                parentesis,
            ),
        fichas(s, parentesis).flatten_alt() == s.filter(|c: char| no_espacio(c)),
        s.len() > 0 && de_palabra(s.last(), parentesis) ==> ({
            let t = fichas(s, parentesis);
            &&& t.len() > 0
            &&& forall|k: int| 0 <= k < t.last().len() ==> de_palabra(#[trigger] t.last()[k], parentesis)
        }),
    decreases s.len(),
{
    reveal(Seq::filter);
    let f = |c: char| no_espacio(c);
    if s.len() == 0 {
        assert(s.filter(f) =~= Seq::<char>::empty());
    } else {
        let previo = s.drop_last();
        lema_fichas_estructura(previo, parentesis);
        let tp = fichas(previo, parentesis);
        let t = fichas(s, parentesis);
        let c = s.last();
        assert(s.filter(f) == if f(c) { previo.filter(f).push(c) } else { previo.filter(f) });
        if es_espacio(c) {
        } else if de_palabra(c, parentesis) && s.len() >= 2 && de_palabra(
            s[s.len() - 2],
            parentesis,
        ) {
            let u = tp.last().push(c);
            assert(t == tp.update(tp.len() - 1, u));
            assert(t.drop_last() =~= tp.drop_last());
            assert(tp.flatten_alt() == tp.drop_last().flatten_alt() + tp.last());
            assert(t.flatten_alt() == t.drop_last().flatten_alt() + t.last());
            assert(t.flatten_alt() =~= tp.flatten_alt().push(c));
            assert forall|k: int| 0 <= k < u.len() implies de_palabra(#[trigger] u[k], parentesis) by {
                if k < u.len() - 1 {
                    assert(u[k] == tp.last()[k]);
                }
            }
            assert forall|k: int| 0 <= k < t.len() implies ficha_valida(#[trigger] t[k], parentesis) by {
                if k < t.len() - 1 {
                    assert(t[k] == tp[k]);
                }
            }
        } else {
            assert(t == tp.push(seq![c]));
            assert(t.drop_last() =~= tp);
            assert(t.flatten_alt() =~= tp.flatten_alt() + seq![c]);
            assert(t.flatten_alt() =~= tp.flatten_alt().push(c));
            assert forall|k: int| 0 <= k < t.len() implies ficha_valida(#[trigger] t[k], parentesis) by {
                if k < t.len() - 1 {
                    assert(t[k] == tp[k]);
                }
            }
        }
    }
}

/// A single well-formed token is its own tokenization.
proof fn lema_ficha_sola(w: Seq<char>, parentesis: bool)
    requires
        ficha_valida(w, parentesis),
    ensures
        fichas(w, parentesis) == seq![w],
    decreases w.len(),
{
    if w.len() == 1 {
        assert(w.drop_last() =~= Seq::<char>::empty());
        assert(w =~= seq![w[0]]);
        assert(!es_espacio(w[0]));
        assert(fichas(w.drop_last(), parentesis) =~= Seq::<Seq<char>>::empty());
        assert(fichas(w, parentesis) == Seq::<Seq<char>>::empty().push(seq![w[0]]));
        assert(Seq::<Seq<char>>::empty().push(seq![w[0]]) =~= seq![w]);
    } else {
        let v = w.drop_last();
        assert forall|k: int| 0 <= k < v.len() implies de_palabra(#[trigger] v[k], parentesis) by {
            assert(v[k] == w[k]);
        }
        lema_ficha_sola(v, parentesis);
        assert(de_palabra(w[w.len() - 2], parentesis));
        assert(de_palabra(w.last(), parentesis));
        assert(v.push(w.last()) =~= w);
        assert(seq![v].update(0, v.push(w.last())) =~= seq![w]);
    }
}

/// A well-formed token placed after a space becomes one more token.
proof fn lema_ficha_tras_espacio(a: Seq<char>, w: Seq<char>, parentesis: bool)
    requires
        ficha_valida(w, parentesis),
    ensures
        fichas(a + seq![' '] + w, parentesis) == fichas(a, parentesis).push(w),
    decreases w.len(),
{
    let s = a + seq![' '] + w;
    let base = a + seq![' '];
    assert(base.drop_last() =~= a);
    assert(fichas(base, parentesis) == fichas(a, parentesis));
    if w.len() == 1 {
        assert(s.drop_last() =~= base);
        assert(w =~= seq![w[0]]);
        assert(s[s.len() - 2] == ' ');
    } else {
        let v = w.drop_last();
        assert forall|k: int| 0 <= k < v.len() implies de_palabra(#[trigger] v[k], parentesis) by {
            assert(v[k] == w[k]);
        }
        lema_ficha_tras_espacio(a, v, parentesis);
        assert(s.drop_last() =~= a + seq![' '] + v);
        assert(de_palabra(w[w.len() - 2], parentesis));
        assert(s[s.len() - 2] == w[w.len() - 2]);
        assert(de_palabra(w.last(), parentesis));
        assert(v.push(w.last()) =~= w);
        let tp = fichas(a, parentesis).push(v);
        assert(tp.update(tp.len() - 1, v.push(w.last())) =~= fichas(a, parentesis).push(w));
    }
}

/// Joining well-formed tokens with single spaces and tokenizing the result gives the
/// tokens back. With `parentesis` unset: joining whitespace-free words with spaces and
/// splitting on whitespace gives the words back.
pub proof fn ley_unir_y_trocear(ws: Seq<Seq<char>>, parentesis: bool)
    requires
        forall|k: int| 0 <= k < ws.len() ==> ficha_valida(#[trigger] ws[k], parentesis),
    ensures
        fichas(unir(ws, seq![' ']), parentesis) == ws,
    decreases ws.len(),
{
    if ws.len() == 0 {
    } else if ws.len() == 1 {
        lema_ficha_sola(ws[0], parentesis);
    } else {
        let v = ws.drop_last();
        assert forall|k: int| 0 <= k < v.len() implies ficha_valida(#[trigger] v[k], parentesis) by {
            assert(v[k] == ws[k]);
        }
        ley_unir_y_trocear(v, parentesis);
        assert(ficha_valida(ws[ws.len() - 1], parentesis));
        lema_ficha_tras_espacio(unir(v, seq![' ']), ws.last(), parentesis);
        assert(v.push(ws.last()) =~= ws);
    }
}

/// Tokenizing is stable: joining the tokens of `s` with spaces and tokenizing again
/// gives the same tokens.
pub proof fn ley_trocear_es_estable(s: Seq<char>, parentesis: bool)
    ensures
        fichas(unir(fichas(s, parentesis), seq![' ']), parentesis) == fichas(s, parentesis),
{
    ley_fichas_cubren_la_entrada(s, parentesis);
    ley_unir_y_trocear(fichas(s, parentesis), parentesis);
}


/// How many times `c` occurs in `s`.
pub open spec fn cuenta_caracter(s: Seq<char>, c: char) -> nat
    decreases s.len(),
{
    if s.len() == 0 {
        0
    } else {
        cuenta_caracter(s.drop_last(), c) + if s.last() == c {
            1nat
        } else {
            0nat
        }
    }
}

/// How many tokens of `t` equal `w`.
pub open spec fn cuenta_fichas(t: Seq<Seq<char>>, w: Seq<char>) -> nat
    decreases t.len(),
{
    if t.len() == 0 {
        0
    } else {
        cuenta_fichas(t.drop_last(), w) + if t.last() == w {
            1nat
        } else {
            0nat
        }
    }
}

/// In the conditions split with parentheses apart, a token is `(`, `)`, or holds no
/// parenthesis; and there are as many `(` tokens as `(` characters in the input, and as
/// many `)` tokens as `)` characters.
pub proof fn ley_parentesis_sueltos(s: Seq<char>)
    ensures
        forall|k: int|
            0 <= k < fichas(s, true).len() ==> {
                let w = #[trigger] fichas(s, true)[k];
                ||| w == seq!['(']
                ||| w == seq![')']
                ||| !w.contains('(') && !w.contains(')')
            },
        cuenta_fichas(fichas(s, true), seq!['(']) == cuenta_caracter(s, '('),
        cuenta_fichas(fichas(s, true), seq![')']) == cuenta_caracter(s, ')'),
{
    ley_fichas_cubren_la_entrada(s, true);
    let t = fichas(s, true);
    assert forall|k: int| 0 <= k < t.len() implies {
        let w = #[trigger] t[k];
        ||| w == seq!['(']
        ||| w == seq![')']
        ||| !w.contains('(') && !w.contains(')')
    } by {
        let w = t[k];
        assert(ficha_valida(w, true));
        if w.len() == 1 && aislado(w[0], true) {
            assert(w =~= seq![w[0]]);
        } else {
            if w.contains('(') {
                let j = choose|j: int| 0 <= j < w.len() && w[j] == '(';
                assert(de_palabra(w[j], true));
            }
            if w.contains(')') {
                let j = choose|j: int| 0 <= j < w.len() && w[j] == ')';
                assert(de_palabra(w[j], true));
            }
        }
    }
    lema_cuenta_parentesis(s, '(');
    lema_cuenta_parentesis(s, ')');
}

proof fn lema_cuenta_parentesis(s: Seq<char>, c: char)
    requires
        es_parentesis(c),
    ensures
        cuenta_fichas(fichas(s, true), seq![c]) == cuenta_caracter(s, c),
    decreases s.len(),
{
    if s.len() > 0 {
        let previo = s.drop_last();
        lema_cuenta_parentesis(previo, c);
        lema_fichas_estructura(previo, true);
        let tp = fichas(previo, true);
        let t = fichas(s, true);
        let d = s.last();
        if es_espacio(d) {
        } else if de_palabra(d, true) && s.len() >= 2 && de_palabra(s[s.len() - 2], true) {
            let u = tp.last().push(d);
            assert(t.drop_last() =~= tp.drop_last());
            assert(tp.last() != seq![c]) by {
                assert(de_palabra(tp.last()[0], true));
            }
            assert(u != seq![c]) by {
                assert(u.len() >= 2);
            }
        } else {
            assert(t.drop_last() =~= tp);
            if d != c {
                assert(seq![d] != seq![c]) by {
                    assert(seq![d][0] == d);
                }
            }
        }
    }
}


/// A separating character (whitespace, or a parenthesis when parentheses stand apart)
/// cuts the tokens: the tokens of `a`, the separator, then `b` are those of `a`, the
/// separator itself when it is a parenthesis, then those of `b`.
pub proof fn ley_separador_corta_fichas(a: Seq<char>, s: char, b: Seq<char>, parentesis: bool)
    requires
        es_espacio(s) || aislado(s, parentesis),
    ensures
        fichas(a + seq![s] + b, parentesis) == fichas(a, parentesis) + (if aislado(s, parentesis) {
            seq![seq![s]]
        } else {
            Seq::<Seq<char>>::empty()
        }) + fichas(b, parentesis),
{
    let x = a + seq![s];
    assert(x.drop_last() =~= a);
    assert(x.last() == s);
    if aislado(s, parentesis) {
        assert(!es_espacio(s));
    }
    lema_fichas_tras_borde(x, b, parentesis);
    if !aislado(s, parentesis) {
        assert(fichas(a, parentesis) + Seq::<Seq<char>>::empty() =~= fichas(a, parentesis));
    }
}

/// After a character that ends any token, the tokens of what follows are appended.
proof fn lema_fichas_tras_borde(x: Seq<char>, b: Seq<char>, parentesis: bool)
    requires
        x.len() > 0,
        !de_palabra(x.last(), parentesis),
    ensures
        fichas(x + b, parentesis) == fichas(x, parentesis) + fichas(b, parentesis),
    decreases b.len(),
{
    if b.len() == 0 {
        assert(x + b =~= x);
        assert(fichas(x, parentesis) + fichas(b, parentesis) =~= fichas(x, parentesis));
    } else {
        let b1 = b.drop_last();
        let c = b.last();
        lema_fichas_tras_borde(x, b1, parentesis);
        let y = x + b1;
        assert((x + b).drop_last() =~= y);
        assert((x + b).last() == c);
        let fx = fichas(x, parentesis);
        let fb1 = fichas(b1, parentesis);
        if es_espacio(c) {
        } else if de_palabra(c, parentesis) && b1.len() >= 1 && de_palabra(b1.last(), parentesis) {
            assert((x + b)[(x + b).len() - 2] == b1.last());
            assert(b[b.len() - 2] == b1.last());
            lema_fichas_estructura(b1, parentesis);
            let u = fb1.last().push(c);
            assert((fx + fb1).last() == fb1.last());
            assert((fx + fb1).update((fx + fb1).len() - 1, u) =~= fx + fb1.update(fb1.len() - 1, u));
        } else {
            if de_palabra(c, parentesis) && b1.len() == 0 {
                assert((x + b)[(x + b).len() - 2] == x.last());
            }
            if de_palabra(c, parentesis) && b1.len() >= 1 {
                assert((x + b)[(x + b).len() - 2] == b1.last());
            }
            assert((fx + fb1).push(seq![c]) =~= fx + fb1.push(seq![c]));
        }
    }
}

/// The number of leading non-whitespace characters of `s`.
pub open spec fn largo_inicial(s: Seq<char>) -> int
    decreases s.len(),
{
    if s.len() == 0 || es_espacio(s[0]) {
        0
    } else {
        1 + largo_inicial(s.skip(1))
    }
}

proof fn lema_largo_inicial(s: Seq<char>)
    ensures
        0 <= largo_inicial(s) <= s.len(),
        forall|i: int| 0 <= i < largo_inicial(s) ==> !es_espacio(#[trigger] s[i]),
        largo_inicial(s) < s.len() ==> es_espacio(s[largo_inicial(s)]),
    decreases s.len(),
{
    if s.len() > 0 && !es_espacio(s[0]) {
        lema_largo_inicial(s.skip(1));
        assert forall|i: int| 0 <= i < largo_inicial(s) implies !es_espacio(#[trigger] s[i]) by {
            if i > 0 {
                assert(s[i] == s.skip(1)[i - 1]);
            }
        }
    }
}

/// The first word of a text with words is non-empty and without whitespace, the text
/// without its leading whitespace starts with it, and what follows it there is nothing or
/// a whitespace character.
pub proof fn ley_primera_palabra(s: Seq<char>)
    requires
        fichas(s, false).len() > 0,
    ensures
        ({
            let w = fichas(s, false)[0];
            let t = recortar_inicio(s);
            &&& w.len() > 0
            &&& forall|i: int| 0 <= i < w.len() ==> !es_espacio(#[trigger] w[i])
            &&& w.len() <= t.len()
            &&& t.take(w.len() as int) == w
            &&& w.len() == t.len() || es_espacio(t[w.len() as int])
        }),
    decreases s.len(),
{
    if s.len() > 0 && es_espacio(s[0]) {
        let resto = s.skip(1);
        ley_separador_corta_fichas(Seq::<char>::empty(), s[0], resto, false);
        assert(Seq::<char>::empty() + seq![s[0]] + resto =~= s);
        assert(fichas(Seq::<char>::empty(), false) =~= Seq::<Seq<char>>::empty());
        assert(fichas(s, false) =~= fichas(resto, false));
        ley_primera_palabra(resto);
    } else {
        assert(s.len() > 0) by {
            if s.len() == 0 {
                assert(fichas(s, false).len() == 0);
            }
        }
        lema_largo_inicial(s);
        let k = largo_inicial(s);
        let w = s.take(k);
        assert(k > 0);
        assert forall|i: int| 0 <= i < w.len() implies de_palabra(#[trigger] w[i], false) by {
            assert(w[i] == s[i]);
        }
        lema_ficha_sola(w, false);
        if k < s.len() {
            ley_separador_corta_fichas(w, s[k], s.skip(k + 1), false);
            assert(w + seq![s[k]] + s.skip(k + 1) =~= s);
        } else {
            assert(w =~= s);
        }
        assert(fichas(s, false)[0] == w);
        assert forall|i: int| 0 <= i < w.len() implies !es_espacio(#[trigger] w[i]) by {
            assert(w[i] == s[i]);
        }
    }
}


/// Counting over a concatenation adds the counts.
pub proof fn lema_cuenta_concat(a: Seq<char>, b: Seq<char>, c: char)
    ensures
        cuenta_caracter(a + b, c) == cuenta_caracter(a, c) + cuenta_caracter(b, c),
    decreases b.len(),
{
    if b.len() == 0 {
        assert(a + b =~= a);
    } else {
        lema_cuenta_concat(a, b.drop_last(), c);
        assert((a + b).drop_last() =~= a + b.drop_last());
        assert((a + b).last() == b.last());
    }
}

/// Removing the characters `d` keeps the count of any other character.
pub proof fn lema_cuenta_quitar(s: Seq<char>, d: char, c: char)
    requires
        c != d,
    ensures
        cuenta_caracter(quitar(s, seq![d]), c) == cuenta_caracter(s, c),
    decreases s.len(),
{
    if s.len() > 0 {
        lema_cuenta_quitar(s.skip(1), d, c);
        assert(seq![s[0]] + s.skip(1) =~= s);
        lema_cuenta_concat(seq![s[0]], s.skip(1), c);
        assert(seq![s[0]].drop_last() =~= Seq::<char>::empty());
        assert(cuenta_caracter(Seq::<char>::empty(), c) == 0);
        assert(cuenta_caracter(seq![s[0]], c) == if s[0] == c {
            1nat
        } else {
            0nat
        });
        if empieza_con(s, seq![d]) {
            assert(s.take(1)[0] == s[0]);
            assert(s[0] == d);
        } else {
            lema_cuenta_concat(seq![s[0]], quitar(s.skip(1), seq![d]), c);
        }
    }
}

/// Trimming trailing copies of `d` keeps the count of any other character.
pub proof fn lema_cuenta_recortar_final(s: Seq<char>, d: char, c: char)
    requires
        c != d,
    ensures
        cuenta_caracter(recortar_final(s, d), c) == cuenta_caracter(s, c),
    decreases s.len(),
{
    if s.len() > 0 && s.last() == d {
        lema_cuenta_recortar_final(s.drop_last(), d, c);
    }
}

/// Removing the characters `d` keeps exactly the other characters, in order.
pub proof fn lema_quitar_es_filtro(s: Seq<char>, d: char)
    ensures
        quitar(s, seq![d]) == s.filter(|x: char| x != d),
    decreases s.len(),
{
    reveal(Seq::filter);
    if s.len() > 0 {
        let dl = s.drop_last();
        lema_quitar_es_filtro(dl, d);
        assert(dl + seq![s.last()] =~= s);
        lema_quitar_concat(dl, seq![s.last()], d);
        let u = seq![s.last()];
        assert(u.skip(1) =~= Seq::<char>::empty());
        if s.last() == d {
            assert(u.take(1) =~= seq![d]);
            assert(quitar(u, seq![d]) == quitar(u.skip(1), seq![d]));
            assert(quitar(dl, seq![d]) + Seq::<char>::empty() =~= quitar(dl, seq![d]));
        } else {
            assert(u.take(1) != seq![d]) by {
                assert(u.take(1)[0] == s.last());
            }
            assert(quitar(u, seq![d]) == seq![u[0]] + quitar(u.skip(1), seq![d]));
            assert(quitar(u, seq![d]) =~= u);
            assert(quitar(dl, seq![d]) + u =~= quitar(dl, seq![d]).push(s.last()));
        }
    }
}

/// Filtering twice keeps what both filters keep.
pub proof fn lema_filtro_doble(s: Seq<char>, f: spec_fn(char) -> bool, g: spec_fn(char) -> bool)
    ensures
        s.filter(f).filter(g) == s.filter(|x: char| f(x) && g(x)),
    decreases s.len(),
{
    reveal(Seq::filter);
    if s.len() > 0 {
        lema_filtro_doble(s.drop_last(), f, g);
        let fg = |x: char| f(x) && g(x);
        if f(s.last()) {
            assert(s.filter(f) == s.drop_last().filter(f).push(s.last()));
            assert(s.filter(f).drop_last() =~= s.drop_last().filter(f));
            assert(s.filter(f).last() == s.last());
        } else {
            assert(s.filter(f) == s.drop_last().filter(f));
        }
    }
}

} // verus!
