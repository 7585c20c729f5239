use vstd::prelude::*;

verus! {

broadcast use vstd::string::group_string_axioms;

/// The characters that carry the Unicode `White_Space` property.
pub open spec fn es_espacio(c: char) -> bool {
    ||| c == ' '
    ||| ('\x09' <= c && c <= '\x0d')
    ||| c == '\u{85}'
    ||| c == '\u{a0}'
    ||| c == '\u{1680}'
    ||| ('\u{2000}' <= c && c <= '\u{200a}')
    ||| c == '\u{2028}'
    ||| c == '\u{2029}'
    ||| c == '\u{202f}'
    ||| c == '\u{205f}'
    ||| c == '\u{3000}'
}

/// Whether `c` is a whitespace character.
pub fn es_espacio_en_blanco(c: char) -> (r: bool)
    ensures
        r == es_espacio(c),
{
    c == ' ' || ('\x09' <= c && c <= '\x0d') || c == '\u{85}' || c == '\u{a0}' || c == '\u{1680}'
        || ('\u{2000}' <= c && c <= '\u{200a}') || c == '\u{2028}' || c == '\u{2029}' || c
        == '\u{202f}' || c == '\u{205f}' || c == '\u{3000}'
}

/// The characters of a string slice, in order.
pub fn caracteres(s: &str) -> (v: Vec<char>)
    ensures
        v@ == s@,
{
    let mut v: Vec<char> = Vec::new();
    for c in it: s.chars()
        invariant
            v@ == it.seq().take(it.index() as int),
    {
        v.push(c);
    }
    v
}

/// Appends `c` to `s` with `String::push`. The contract claims what the documentation
/// of `String::push` says: the string afterwards is the old one with `c` at its end.
#[verifier::external_body]
fn empujar(s: &mut String, c: char)
    ensures
        final(s)@ == old(s)@.push(c),
{
    s.push(c);
}

/// A `String` holding exactly the given characters.
pub fn a_cadena(v: &Vec<char>) -> (s: String)
    ensures
        s@ == v@,
{
    let mut s = String::new();
    let n = v.len();
    for i in 0..n
        invariant
            n == v.len(),
            s@ == v@.take(i as int),
    {
        empujar(&mut s, v[i]);
        assert(v@.take(i + 1) =~= v@.take(i as int).push(v@[i as int]));
    }
    assert(v@.take(n as int) =~= v@);
    s
}


/// Whether `c` is a parenthesis.
pub open spec fn es_parentesis(c: char) -> bool {
    c == '(' || c == ')'
}

/// Whether `c` stands as a token of its own: a parenthesis, when `parentesis` is set.
pub open spec fn aislado(c: char, parentesis: bool) -> bool {
    parentesis && es_parentesis(c)
}

/// Whether `c` belongs inside a multi-character token.
pub open spec fn de_palabra(c: char, parentesis: bool) -> bool {
    !es_espacio(c) && !aislado(c, parentesis)
}

/// The tokens of `s`: maximal runs of word characters, separated by whitespace, and,
/// when `parentesis` is set, every parenthesis as a token of one character.
/// With `parentesis` unset these are the words that `str::split_whitespace` yields.
pub open spec fn fichas(s: Seq<char>, parentesis: bool) -> Seq<Seq<char>>
    decreases s.len(),
{
    if s.len() == 0 {
        seq![]
    } else {
        let previas = fichas(s.drop_last(), parentesis);
        let c = s.last();
        if es_espacio(c) {
            previas
        } else if de_palabra(c, parentesis) && s.len() >= 2 && de_palabra(
            s[s.len() - 2],
            parentesis,
        ) {
            previas.update(previas.len() - 1, previas.last().push(c))
        } else {
            previas.push(seq![c])
        }
    }
}

/// The whitespace-separated words of `s`.
pub open spec fn palabras(s: Seq<char>) -> Seq<Seq<char>> {
    fichas(s, false)
}

/// The views of a sequence of character vectors.
pub open spec fn vistas(v: Seq<Vec<char>>) -> Seq<Seq<char>> {
    v.map_values(|x: Vec<char>| x@)
}

/// The views of a sequence of strings.
pub open spec fn vistas_cadenas(v: Seq<String>) -> Seq<Seq<char>> {
    v.map_values(|x: String| x@)
}

/// Pushing a vector adds its view at the end.
proof fn lema_vistas_push(v: Seq<Vec<char>>, x: Vec<char>)
    ensures
        vistas(v.push(x)) =~= vistas(v).push(x@),
{
}

/// Splits `s` into tokens as `fichas` describes.
pub fn trocear(s: &Vec<char>, parentesis: bool) -> (r: Vec<Vec<char>>)
    ensures
        vistas(r@) == fichas(s@, parentesis),
{
    let mut r: Vec<Vec<char>> = Vec::new();
    let mut actual: Vec<char> = Vec::new();
    let n = s.len();
    for i in 0..n
        invariant
            n == s.len(),
            (actual.len() > 0) == (i > 0 && de_palabra(s@[i - 1], parentesis)),
            actual.len() > 0 ==> ({
                let t = fichas(s@.take(i as int), parentesis);
                &&& t.len() > 0
                &&& t.last() == actual@
                &&& vistas(r@) == t.drop_last()
            }),
            actual.len() == 0 ==> vistas(r@) == fichas(s@.take(i as int), parentesis),
    {
        let c = s[i];
        let ghost previo = s@.take(i as int);
        assert(s@.take(i + 1).drop_last() =~= previo);
        if es_espacio_en_blanco(c) {
            if actual.len() > 0 {
                let ghost t = fichas(previo, parentesis);
                proof {
                    lema_vistas_push(r@, actual);
                }
                r.push(actual);
                actual = Vec::new();
                assert(t.drop_last().push(t.last()) =~= t);
            }
        } else if parentesis && (c == '(' || c == ')') {
            if actual.len() > 0 {
                let ghost t = fichas(previo, parentesis);
                proof {
                    lema_vistas_push(r@, actual);
                }
                r.push(actual);
                actual = Vec::new();
                assert(t.drop_last().push(t.last()) =~= t);
            }
            let mut solo: Vec<char> = Vec::new();
            solo.push(c);
            r.push(solo);
            assert(vistas(r@) =~= fichas(s@.take(i + 1), parentesis));
        } else {
            if actual.len() > 0 {
                let ghost t = fichas(previo, parentesis);
                actual.push(c);
                assert(fichas(s@.take(i + 1), parentesis) =~= t.update(
                    t.len() - 1,
                    t.last().push(c),
                ));
                assert(fichas(s@.take(i + 1), parentesis).drop_last() =~= t.drop_last());
            } else {
                actual.push(c);
                assert(actual@ =~= seq![c]);
            }
        }
    }
    assert(s@.take(n as int) =~= s@);
    if actual.len() > 0 {
        let ghost t = fichas(s@, parentesis);
        proof {
            lema_vistas_push(r@, actual);
        }
        r.push(actual);
        assert(t.drop_last().push(t.last()) =~= t);
    }
    assert(vistas(r@) =~= fichas(s@, parentesis));
    r
}


/// The pieces of `ws` joined, with `sep` between each two of them, as `[T]::join` does.
pub open spec fn unir(ws: Seq<Seq<char>>, sep: Seq<char>) -> Seq<char>
    decreases ws.len(),
{
    if ws.len() == 0 {
        seq![]
    } else if ws.len() == 1 {
        ws[0]
    } else {
        unir(ws.drop_last(), sep) + sep + ws.last()
    }
}

/// Whether `s` begins with `p`.
pub open spec fn empieza_con(s: Seq<char>, p: Seq<char>) -> bool {
    p.len() <= s.len() && s.take(p.len() as int) == p
}

/// Whether `p` occurs in `s`, as `str::contains` tells.
pub open spec fn contiene(s: Seq<char>, p: Seq<char>) -> bool {
    exists|i: int| 0 <= i <= s.len() && #[trigger] empieza_con(s.skip(i), p)
}

/// `s` with every occurrence of `p` removed, scanning from the left without overlap,
/// as `str::replace(p, "")` does for a non-empty `p`.
pub open spec fn quitar(s: Seq<char>, p: Seq<char>) -> Seq<char>
    decreases s.len(),
{
    if s.len() == 0 {
        seq![]
    } else if p.len() > 0 && empieza_con(s, p) {
        quitar(s.skip(p.len() as int), p)
    } else {
        seq![s[0]] + quitar(s.skip(1), p)
    }
}

/// `s` without its leading whitespace.
pub open spec fn recortar_inicio(s: Seq<char>) -> Seq<char>
    decreases s.len(),
{
    if s.len() > 0 && es_espacio(s[0]) {
        recortar_inicio(s.skip(1))
    } else {
        s
    }
}

/// `s` without its trailing whitespace.
pub open spec fn recortar_fin(s: Seq<char>) -> Seq<char>
    decreases s.len(),
{
    if s.len() > 0 && es_espacio(s.last()) {
        recortar_fin(s.drop_last())
    } else {
        s
    }
}

/// `s` without leading and trailing whitespace, as `str::trim` gives it.
pub open spec fn recortar(s: Seq<char>) -> Seq<char> {
    recortar_inicio(recortar_fin(s))
}

/// `s` without the copies of `c` at its end, as `str::trim_end_matches(c)` gives it.
pub open spec fn recortar_final(s: Seq<char>, c: char) -> Seq<char>
    decreases s.len(),
{
    if s.len() > 0 && s.last() == c {
        recortar_final(s.drop_last(), c)
    } else {
        s
    }
}

/// The pieces of `s` between the occurrences of `p`, found from the left without
/// overlap, as `str::split(p)` yields them for a non-empty `p`.
pub open spec fn partir(s: Seq<char>, p: Seq<char>) -> Seq<Seq<char>>
    decreases s.len(),
{
    if p.len() > 0 && empieza_con(s, p) {
        seq![seq![]] + partir(s.skip(p.len() as int), p)
    } else if s.len() == 0 {
        seq![seq![]]
    } else {
        let r = partir(s.skip(1), p);
        r.update(0, seq![s[0]] + r[0])
    }
}

/// Index of the first piece of `ws` equal to `w`; `ws.len()` when there is none.
pub open spec fn posicion(ws: Seq<Seq<char>>, w: Seq<char>) -> int
    decreases ws.len(),
{
    if ws.len() == 0 {
        0
    } else if ws[0] == w {
        0
    } else {
        1 + posicion(ws.skip(1), w)
    }
}

/// `posicion` is the first index holding `w`, and it is `ws.len()` exactly when
/// `w` does not occur.
pub proof fn lema_posicion(ws: Seq<Seq<char>>, w: Seq<char>)
    ensures
        0 <= posicion(ws, w) <= ws.len(),
        posicion(ws, w) < ws.len() <==> ws.contains(w),
        posicion(ws, w) < ws.len() ==> ws[posicion(ws, w)] == w,
        forall|j: int| 0 <= j < posicion(ws, w) ==> ws[j] != w,
    decreases ws.len(),
{
    if ws.len() > 0 && ws[0] != w {
        lema_posicion(ws.skip(1), w);
        if ws.contains(w) {
            let k = choose|k: int| 0 <= k < ws.len() && ws[k] == w;
            assert(ws.skip(1)[k - 1] == w);
        }
        assert forall|j: int| 0 <= j < posicion(ws, w) implies ws[j] != w by {
            if j > 0 {
                assert(ws[j] == ws.skip(1)[j - 1]);
            }
        }
        if posicion(ws, w) < ws.len() {
            assert(ws[posicion(ws, w)] == ws.skip(1)[posicion(ws.skip(1), w)]);
        }
    }
}

/// `partir` always yields at least one piece.
pub proof fn lema_partir_no_vacio(s: Seq<char>, p: Seq<char>)
    ensures
        partir(s, p).len() >= 1,
    decreases s.len(),
{
    if p.len() > 0 && empieza_con(s, p) {
        lema_partir_no_vacio(s.skip(p.len() as int), p);
    } else if s.len() > 0 {
        lema_partir_no_vacio(s.skip(1), p);
    }
}

/// Appends the characters of `src` to `dst`.
pub fn extender(dst: &mut Vec<char>, src: &Vec<char>)
    ensures
        final(dst)@ == old(dst)@ + src@,
{
    let n = src.len();
    for i in 0..n
        invariant
            n == src.len(),
            dst@ == old(dst)@ + src@.take(i as int),
    {
        dst.push(src[i]);
        assert(src@.take(i + 1) =~= src@.take(i as int).push(src@[i as int]));
    }
    assert(src@.take(n as int) =~= src@);
}

/// Whether two character vectors are equal.
pub fn iguales(a: &Vec<char>, b: &Vec<char>) -> (r: bool)
    ensures
        r == (a@ == b@),
{
    if a.len() != b.len() {
        return false;
    }
    let n = a.len();
    for i in 0..n
        invariant
            n == a.len(),
            n == b.len(),
            forall|j: int| 0 <= j < i ==> a@[j] == b@[j],
    {
        if a[i] != b[i] {
            return false;
        }
    }
    assert(a@ =~= b@);
    true
}

/// Whether `s` holds `p` starting at index `i`.
pub fn coincide_en(s: &Vec<char>, i: usize, p: &Vec<char>) -> (r: bool)
    requires
        i <= s.len(),
    ensures
        r == empieza_con(s@.skip(i as int), p@),
{
    if p.len() > s.len() - i {
        return false;
    }
    let n = p.len();
    for k in 0..n
        invariant
            n == p.len(),
            i + n <= s.len(),
            forall|j: int| 0 <= j < k ==> s@[i + j] == p@[j],
    {
        if s[i + k] != p[k] {
            assert(s@.skip(i as int).take(n as int)[k as int] != p@[k as int]);
            return false;
        }
    }
    assert(s@.skip(i as int).take(n as int) =~= p@);
    true
}

/// The first index of a piece of `ws` equal to `w`, or `ws.len()` when there is none.
pub fn buscar(ws: &Vec<Vec<char>>, w: &Vec<char>) -> (r: usize)
    ensures
        r == posicion(vistas(ws@), w@),
{
    let n = ws.len();
    let mut i: usize = 0;
    assert(vistas(ws@).skip(0) =~= vistas(ws@));
    while i < n
        invariant
            n == ws.len(),
            i <= n,
            posicion(vistas(ws@), w@) == i + posicion(vistas(ws@).skip(i as int), w@),
        decreases n - i,
    {
        if iguales(&ws[i], w) {
            return i;
        }
        assert(vistas(ws@).skip(i as int).skip(1) =~= vistas(ws@).skip(i + 1));
        i = i + 1;
    }
    i
}

/// The pieces `ws[desde..hasta]` joined with `sep` between them.
pub fn unir_tramo(ws: &Vec<Vec<char>>, desde: usize, hasta: usize, sep: char) -> (r: Vec<char>)
    requires
        desde <= hasta <= ws.len(),
    ensures
        r@ == unir(vistas(ws@).subrange(desde as int, hasta as int), seq![sep]),
{
    let mut r: Vec<char> = Vec::new();
    let ghost v = vistas(ws@);
    for i in desde..hasta
        invariant
            desde <= hasta <= ws.len(),
            v == vistas(ws@),
            r@ == unir(v.subrange(desde as int, i as int), seq![sep]),
    {
        let ghost previo = r@;
        if i > desde {
            r.push(sep);
        }
        extender(&mut r, &ws[i]);
        assert(v.subrange(desde as int, i + 1).drop_last() =~= v.subrange(desde as int, i as int));
        if i == desde {
            assert(r@ =~= v.subrange(desde as int, i + 1)[0]);
        } else {
            assert(r@ =~= previo + seq![sep] + v[i as int]);
        }
    }
    r
}

/// `s` with every occurrence of the non-empty `p` removed.
pub fn quitar_patron(s: &Vec<char>, p: &Vec<char>) -> (r: Vec<char>)
    requires
        p.len() > 0,
    ensures
        r@ == quitar(s@, p@),
{
    let n = s.len();
    let mut r: Vec<char> = Vec::new();
    let mut i: usize = 0;
    assert(s@.skip(0) =~= s@);
    assert(r@ + quitar(s@, p@) =~= quitar(s@, p@));
    while i < n
        invariant
            n == s.len(),
            p.len() > 0,
            i <= n,
            r@ + quitar(s@.skip(i as int), p@) == quitar(s@, p@),
        decreases n - i,
    {
        let ghost resto = s@.skip(i as int);
        if coincide_en(s, i, p) {
            assert(resto.skip(p.len() as int) =~= s@.skip(i + p.len()));
            i = i + p.len();
        } else {
            assert(resto.skip(1) =~= s@.skip(i + 1));
            assert(resto[0] == s@[i as int]);
            let ghost antes = r@;
            r.push(s[i]);
            assert(r@ + quitar(s@.skip(i + 1), p@) =~= antes + (seq![resto[0]] + quitar(
                resto.skip(1),
                p@,
            )));
            i = i + 1;
        }
    }
    assert(s@.skip(n as int) =~= Seq::<char>::empty());
    assert(r@ + quitar(s@.skip(n as int), p@) =~= r@);
    r
}


/// The characters `s[desde..hasta]`.
pub fn copiar_tramo(s: &Vec<char>, desde: usize, hasta: usize) -> (r: Vec<char>)
    requires
        desde <= hasta <= s.len(),
    ensures
        r@ == s@.subrange(desde as int, hasta as int),
{
    let mut r: Vec<char> = Vec::new();
    for i in desde..hasta
        invariant
            desde <= hasta <= s.len(),
            r@ == s@.subrange(desde as int, i as int),
    {
        r.push(s[i]);
        assert(s@.subrange(desde as int, i + 1) =~= s@.subrange(desde as int, i as int).push(
            s@[i as int],
        ));
    }
    r
}

/// `s` without leading and trailing whitespace.
pub fn recortar_espacios(s: &Vec<char>) -> (r: Vec<char>)
    ensures
        r@ == recortar(s@),
{
    let n = s.len();
    let mut j: usize = n;
    assert(s@.take(n as int) =~= s@);
    while j > 0 && es_espacio_en_blanco(s[j - 1])
        invariant
            j <= n == s.len(),
            recortar_fin(s@) == recortar_fin(s@.take(j as int)),
        decreases j,
    {
        assert(s@.take(j as int).drop_last() =~= s@.take(j - 1));
        j = j - 1;
    }
    let ghost fin = s@.take(j as int);
    assert(recortar_fin(fin) == fin);
    let mut i: usize = 0;
    assert(fin.skip(0) =~= fin);
    while i < j && es_espacio_en_blanco(s[i])
        invariant
            i <= j <= n == s.len(),
            fin == s@.take(j as int),
            recortar_inicio(fin) == recortar_inicio(s@.subrange(i as int, j as int)),
            fin.skip(i as int) =~= s@.subrange(i as int, j as int),
        decreases j - i,
    {
        assert(s@.subrange(i as int, j as int).skip(1) =~= s@.subrange(i + 1, j as int));
        i = i + 1;
    }
    copiar_tramo(s, i, j)
}

/// `s` without the copies of `c` at its end.
pub fn recortar_final_de(s: &Vec<char>, c: char) -> (r: Vec<char>)
    ensures
        r@ == recortar_final(s@, c),
{
    let n = s.len();
    let mut j: usize = n;
    assert(s@.take(n as int) =~= s@);
    while j > 0 && s[j - 1] == c
        invariant
            j <= n == s.len(),
            recortar_final(s@, c) == recortar_final(s@.take(j as int), c),
        decreases j,
    {
        assert(s@.take(j as int).drop_last() =~= s@.take(j - 1));
        j = j - 1;
    }
    copiar_tramo(s, 0, j)
}

/// The pieces of `s` between the occurrences of the non-empty `p`.
pub fn partir_por(s: &Vec<char>, p: &Vec<char>) -> (r: Vec<Vec<char>>)
    requires
        p.len() > 0,
    ensures
        vistas(r@) == partir(s@, p@),
        r.len() >= 1,
{
    let n = s.len();
    let mut r: Vec<Vec<char>> = Vec::new();
    let mut actual: Vec<char> = Vec::new();
    let mut i: usize = 0;
    proof {
        lema_partir_no_vacio(s@, p@);
        let t = partir(s@, p@);
        assert(s@.skip(0) =~= s@);
        assert(vistas(r@) + seq![actual@ + t[0]] + t.skip(1) =~= t);
    }
    while i < n
        invariant
            n == s.len(),
            p.len() > 0,
            i <= n,
            ({
                let t = partir(s@.skip(i as int), p@);
                vistas(r@) + seq![actual@ + t[0]] + t.skip(1) == partir(s@, p@)
            }),
        decreases n - i,
    {
        let ghost resto = s@.skip(i as int);
        if coincide_en(s, i, p) {
            let ghost t2 = partir(s@.skip(i + p.len()), p@);
            proof {
                lema_partir_no_vacio(s@.skip(i + p.len()), p@);
                assert(resto.skip(p.len() as int) =~= s@.skip(i + p.len()));
                lema_vistas_push(r@, actual);
            }
            r.push(actual);
            actual = Vec::new();
            i = i + p.len();
            assert(vistas(r@) + seq![actual@ + t2[0]] + t2.skip(1) =~= partir(s@, p@));
        } else {
            let ghost t2 = partir(s@.skip(i + 1), p@);
            let ghost t = partir(resto, p@);
            let ghost antes = actual@;
            proof {
                lema_partir_no_vacio(s@.skip(i + 1), p@);
                assert(resto.skip(1) =~= s@.skip(i + 1));
                assert(resto[0] == s@[i as int]);
                assert(t == t2.update(0, seq![resto[0]] + t2[0]));
                assert(t.skip(1) =~= t2.skip(1));
                assert(antes + t[0] =~= antes.push(resto[0]) + t2[0]);
            }
            actual.push(s[i]);
            i = i + 1;
            assert(vistas(r@) + seq![actual@ + t2[0]] + t2.skip(1) =~= partir(s@, p@));
        }
    }
    proof {
        assert(s@.skip(n as int) =~= Seq::<char>::empty());
        lema_vistas_push(r@, actual);
    }
    r.push(actual);
    assert(vistas(r@) =~= partir(s@, p@));
    r
}

/// Whether `p` occurs in `s`.
pub fn contiene_patron(s: &Vec<char>, p: &Vec<char>) -> (r: bool)
    ensures
        r == contiene(s@, p@),
{
    let n = s.len();
    for i in 0..n
        invariant
            n == s.len(),
            forall|j: int| 0 <= j < i ==> !#[trigger] empieza_con(s@.skip(j), p@),
    {
        if coincide_en(s, i, p) {
            return true;
        }
    }
    coincide_en(s, n, p)
}

/// The character vectors of a sequence of strings.
pub fn a_caracteres(v: &Vec<String>) -> (r: Vec<Vec<char>>)
    ensures
        vistas(r@) == vistas_cadenas(v@),
{
    let mut r: Vec<Vec<char>> = Vec::new();
    let n = v.len();
    for i in 0..n
        invariant
            n == v.len(),
            vistas(r@) == vistas_cadenas(v@).take(i as int),
    {
        let c = caracteres(v[i].as_str());
        let ghost antes = r@;
        r.push(c);
        assert(vistas(r@) =~= vistas(antes).push(c@));
        assert(vistas_cadenas(v@).take(i + 1) =~= vistas_cadenas(v@).take(i as int).push(
            v@[i as int]@,
        ));
    }
    assert(vistas_cadenas(v@).take(n as int) =~= vistas_cadenas(v@));
    r
}

/// The strings holding the given character vectors.
pub fn a_cadenas(v: &Vec<Vec<char>>) -> (r: Vec<String>)
    ensures
        vistas_cadenas(r@) == vistas(v@),
{
    let mut r: Vec<String> = Vec::new();
    let n = v.len();
    for i in 0..n
        invariant
            n == v.len(),
            vistas_cadenas(r@) == vistas(v@).take(i as int),
    {
        let c = a_cadena(&v[i]);
        let ghost antes = r@;
        r.push(c);
        assert(vistas_cadenas(r@) =~= vistas_cadenas(antes).push(c@));
        assert(vistas(v@).take(i + 1) =~= vistas(v@).take(i as int).push(v@[i as int]@));
    }
    assert(vistas(v@).take(n as int) =~= vistas(v@));
    r
}


/// What occurs in `s` without its last character occurs in `s`.
proof fn lema_contiene_prefijo(s: Seq<char>, w: Seq<char>)
    requires
        s.len() > 0,
        contiene(s.drop_last(), w),
    ensures
        contiene(s, w),
{
    let i = choose|i: int| 0 <= i <= s.drop_last().len() && #[trigger] empieza_con(
        s.drop_last().skip(i),
        w,
    );
    assert(s.skip(i).take(w.len() as int) =~= s.drop_last().skip(i).take(w.len() as int));
    assert(empieza_con(s.skip(i), w));
}

/// Every token of `s` occurs in `s`; when `s` ends with a non-whitespace character,
/// its last token is a suffix of `s`.
pub proof fn lema_fichas_aparecen(s: Seq<char>, parentesis: bool)
    ensures
        forall|k: int|
            0 <= k < fichas(s, parentesis).len() ==> contiene(
                s,
                #[trigger] fichas(s, parentesis)[k],
            ),
        s.len() > 0 && !es_espacio(s.last()) ==> ({
            let t = fichas(s, parentesis);
            &&& t.len() > 0
            &&& t.last().len() <= s.len()
            &&& s.skip(s.len() - t.last().len()) == t.last()
        }),
    decreases s.len(),
{
    if s.len() > 0 {
        let previo = s.drop_last();
        lema_fichas_aparecen(previo, parentesis);
        let tp = fichas(previo, parentesis);
        let t = fichas(s, parentesis);
        let c = s.last();
        assert forall|k: int| 0 <= k < tp.len() implies contiene(s, #[trigger] tp[k]) by {
            lema_contiene_prefijo(s, tp[k]);
        }
        if es_espacio(c) {
        } else if de_palabra(c, parentesis) && s.len() >= 2 && de_palabra(
            s[s.len() - 2],
            parentesis,
        ) {
            let u = tp.last().push(c);
            assert(s.skip(s.len() - u.len()) =~= previo.skip(previo.len() - tp.last().len()).push(
                c,
            ));
            assert(s.skip(s.len() - u.len()).take(u.len() as int) =~= u);
            assert(empieza_con(s.skip(s.len() - u.len()), u));
            assert forall|k: int| 0 <= k < t.len() implies contiene(s, #[trigger] t[k]) by {
                if k < t.len() - 1 {
                    assert(t[k] == tp[k]);
                }
            }
        } else {
            let u = seq![c];
            assert(s.skip(s.len() - 1) =~= u);
            assert(s.skip(s.len() - 1).take(1) =~= u);
            assert(empieza_con(s.skip(s.len() - 1), u));
            assert forall|k: int| 0 <= k < t.len() implies contiene(s, #[trigger] t[k]) by {
                if k < t.len() - 1 {
                    assert(t[k] == tp[k]);
                }
            }
        }
    }
}

/// A non-empty pattern that occurs in `s` splits it into at least two pieces.
pub proof fn lema_contiene_parte(s: Seq<char>, p: Seq<char>)
    requires
        p.len() > 0,
        contiene(s, p),
    ensures
        partir(s, p).len() >= 2,
    decreases s.len(),
{
    if empieza_con(s, p) {
        lema_partir_no_vacio(s.skip(p.len() as int), p);
    } else {
        let i = choose|i: int| 0 <= i <= s.len() && #[trigger] empieza_con(s.skip(i), p);
        assert(i != 0) by {
            assert(s.skip(0) =~= s);
        }
        assert(s.skip(1).skip(i - 1) =~= s.skip(i));
        assert(empieza_con(s.skip(1).skip(i - 1), p));
        lema_contiene_parte(s.skip(1), p);
    }
}

/// When `p` splits `s` into two pieces or more, `s` is the first piece, then `p`,
/// then a rest whose pieces are the remaining ones.
pub proof fn lema_primera_parte(s: Seq<char>, p: Seq<char>)
    requires
        p.len() > 0,
        partir(s, p).len() >= 2,
    ensures
        ({
            let r0 = partir(s, p)[0];
            &&& r0.len() + p.len() <= s.len()
            &&& s.take(r0.len() as int) == r0
            &&& empieza_con(s.skip(r0.len() as int), p)
            &&& partir(s, p).skip(1) == partir(s.skip((r0.len() + p.len()) as int), p)
        }),
    decreases s.len(),
{
    if empieza_con(s, p) {
        assert(partir(s, p)[0] =~= Seq::<char>::empty());
        assert(s.skip(0) =~= s);
        assert(s.take(0) =~= Seq::<char>::empty());
        assert(partir(s, p).skip(1) =~= partir(s.skip(p.len() as int), p));
    } else if s.len() > 0 {
        let resto = s.skip(1);
        lema_partir_no_vacio(resto, p);
        lema_primera_parte(resto, p);
        let q0 = partir(resto, p)[0];
        let r0 = partir(s, p)[0];
        assert(r0 == seq![s[0]] + q0);
        assert(s.take(r0.len() as int) =~= r0);
        assert(s.skip(r0.len() as int) =~= resto.skip(q0.len() as int));
        assert(s.skip((r0.len() + p.len()) as int) =~= resto.skip((q0.len() + p.len()) as int));
        assert(partir(s, p).skip(1) =~= partir(resto, p).skip(1));
    }
}


/// `s` with every occurrence of the non-empty `p` replaced by `r`, scanning from the left
/// without overlap, as `str::replace(p, r)` does.
pub open spec fn reemplazar(s: Seq<char>, p: Seq<char>, r: Seq<char>) -> Seq<char>
    decreases s.len(),
{
    if s.len() == 0 {
        seq![]
    } else if p.len() > 0 && empieza_con(s, p) {
        r + reemplazar(s.skip(p.len() as int), p, r)
    } else {
        seq![s[0]] + reemplazar(s.skip(1), p, r)
    }
}

/// `s` with every occurrence of the non-empty `p` replaced by `r`.
pub fn reemplazar_patron(s: &Vec<char>, p: &Vec<char>, r: &Vec<char>) -> (t: Vec<char>)
    requires
        p.len() > 0,
    ensures
        t@ == reemplazar(s@, p@, r@),
{
    let n = s.len();
    let mut t: Vec<char> = Vec::new();
    let mut i: usize = 0;
    assert(s@.skip(0) =~= s@);
    assert(t@ + reemplazar(s@, p@, r@) =~= reemplazar(s@, p@, r@));
    while i < n
        invariant
            n == s.len(),
            p.len() > 0,
            i <= n,
            t@ + reemplazar(s@.skip(i as int), p@, r@) == reemplazar(s@, p@, r@),
        decreases n - i,
    {
        let ghost resto = s@.skip(i as int);
        let ghost antes = t@;
        if coincide_en(s, i, p) {
            assert(resto.skip(p.len() as int) =~= s@.skip(i + p.len()));
            extender(&mut t, r);
            assert(t@ + reemplazar(s@.skip(i + p.len()), p@, r@) =~= antes + (r@ + reemplazar(
                resto.skip(p.len() as int),
                p@,
                r@,
            )));
            i = i + p.len();
        } else {
            assert(resto.skip(1) =~= s@.skip(i + 1));
            assert(resto[0] == s@[i as int]);
            t.push(s[i]);
            assert(t@ + reemplazar(s@.skip(i + 1), p@, r@) =~= antes + (seq![resto[0]]
                + reemplazar(resto.skip(1), p@, r@)));
            i = i + 1;
        }
    }
    assert(s@.skip(n as int) =~= Seq::<char>::empty());
    assert(t@ + reemplazar(s@.skip(n as int), p@, r@) =~= t@);
    t
}

/// `s` without the parentheses at its start.
pub open spec fn sin_parentesis_inicio(s: Seq<char>) -> Seq<char>
    decreases s.len(),
{
    if s.len() > 0 && es_parentesis(s[0]) {
        sin_parentesis_inicio(s.skip(1))
    } else {
        s
    }
}

/// `s` without the parentheses at its end.
pub open spec fn sin_parentesis_fin(s: Seq<char>) -> Seq<char>
    decreases s.len(),
{
    if s.len() > 0 && es_parentesis(s.last()) {
        sin_parentesis_fin(s.drop_last())
    } else {
        s
    }
}

/// `s` without the parentheses at both ends, as `str::trim_matches` gives it for a
/// pattern that matches `(` and `)`.
pub open spec fn recortar_parentesis(s: Seq<char>) -> Seq<char> {
    sin_parentesis_inicio(sin_parentesis_fin(s))
}

/// `s` without the parentheses at both ends.
pub fn recortar_parentesis_de(s: &Vec<char>) -> (r: Vec<char>)
    ensures
        r@ == recortar_parentesis(s@),
{
    let n = s.len();
    let mut j: usize = n;
    assert(s@.take(n as int) =~= s@);
    while j > 0 && (s[j - 1] == '(' || s[j - 1] == ')')
        invariant
            j <= n == s.len(),
            sin_parentesis_fin(s@) == sin_parentesis_fin(s@.take(j as int)),
        decreases j,
    {
        assert(s@.take(j as int).drop_last() =~= s@.take(j - 1));
        j = j - 1;
    }
    let ghost fin = s@.take(j as int);
    assert(sin_parentesis_fin(fin) == fin);
    let mut i: usize = 0;
    assert(fin.skip(0) =~= fin);
    while i < j && (s[i] == '(' || s[i] == ')')
        invariant
            i <= j <= n == s.len(),
            fin == s@.take(j as int),
            sin_parentesis_inicio(fin) == sin_parentesis_inicio(s@.subrange(i as int, j as int)),
        decreases j - i,
    {
        assert(s@.subrange(i as int, j as int).skip(1) =~= s@.subrange(i + 1, j as int));
        i = i + 1;
    }
    copiar_tramo(s, i, j)
}


/// Removing every `c` leaves no `c`.
pub proof fn lema_quitar_elimina(s: Seq<char>, c: char)
    ensures
        !quitar(s, seq![c]).contains(c),
    decreases s.len(),
{
    if s.len() > 0 {
        lema_quitar_elimina(s.skip(1), c);
        let r = quitar(s.skip(1), seq![c]);
        if empieza_con(s, seq![c]) {
            assert(s.take(1)[0] == s[0]);
        } else {
            assert(s[0] != c) by {
                if s[0] == c {
                    assert(s.take(1) =~= seq![c]);
                }
            }
            assert forall|i: int| 0 <= i < (seq![s[0]] + r).len() implies (seq![s[0]] + r)[i] != c by {
                if i > 0 {
                    assert((seq![s[0]] + r)[i] == r[i - 1]);
                }
            }
        }
    }
}

/// Removing a pattern adds no character.
pub proof fn lema_quitar_conserva(s: Seq<char>, p: Seq<char>, d: char)
    requires
        !s.contains(d),
    ensures
        !quitar(s, p).contains(d),
    decreases s.len(),
{
    if s.len() > 0 {
        if p.len() > 0 && empieza_con(s, p) {
            assert(!s.skip(p.len() as int).contains(d)) by {
                if s.skip(p.len() as int).contains(d) {
                    let j = choose|j: int| 0 <= j < s.skip(p.len() as int).len() && s.skip(p.len() as int)[j] == d;
                    assert(s[j + p.len()] == d);
                }
            }
            lema_quitar_conserva(s.skip(p.len() as int), p, d);
        } else {
            assert(!s.skip(1).contains(d)) by {
                if s.skip(1).contains(d) {
                    let j = choose|j: int| 0 <= j < s.skip(1).len() && s.skip(1)[j] == d;
                    assert(s[j + 1] == d);
                }
            }
            lema_quitar_conserva(s.skip(1), p, d);
            let r = quitar(s.skip(1), p);
            assert forall|i: int| 0 <= i < (seq![s[0]] + r).len() implies (seq![s[0]] + r)[i] != d by {
                if i > 0 {
                    assert((seq![s[0]] + r)[i] == r[i - 1]);
                }
            }
        }
    }
}

/// A piece taken from `s` holds only characters of `s`.
pub proof fn lema_tramo_conserva(s: Seq<char>, i: int, j: int, d: char)
    requires
        0 <= i <= j <= s.len(),
        !s.contains(d),
    ensures
        !s.subrange(i, j).contains(d),
{
    if s.subrange(i, j).contains(d) {
        let k = choose|k: int| 0 <= k < s.subrange(i, j).len() && s.subrange(i, j)[k] == d;
        assert(s[i + k] == d);
    }
}

/// Trimming whitespace keeps a piece of the text.
pub proof fn lema_recortar_tramo(s: Seq<char>)
    ensures
        exists|i: int, j: int| 0 <= i <= j <= s.len() && recortar(s) == s.subrange(i, j),
{
    lema_recortar_fin_tramo(s);
    let j = choose|j: int| 0 <= j <= s.len() && recortar_fin(s) == s.subrange(0, j);
    lema_recortar_inicio_tramo(s.subrange(0, j));
    let i = choose|i: int| 0 <= i <= s.subrange(0, j).len() && recortar_inicio(s.subrange(0, j))
        == s.subrange(0, j).subrange(i, j);
    assert(s.subrange(0, j).subrange(i, j) =~= s.subrange(i, j));
}

proof fn lema_recortar_fin_tramo(s: Seq<char>)
    ensures
        exists|j: int| 0 <= j <= s.len() && recortar_fin(s) == s.subrange(0, j),
    decreases s.len(),
{
    if s.len() > 0 && es_espacio(s.last()) {
        lema_recortar_fin_tramo(s.drop_last());
        let j = choose|j: int| 0 <= j <= s.drop_last().len() && recortar_fin(s.drop_last())
            == s.drop_last().subrange(0, j);
        assert(s.drop_last().subrange(0, j) =~= s.subrange(0, j));
    } else {
        assert(s.subrange(0, s.len() as int) =~= s);
    }
}

proof fn lema_recortar_inicio_tramo(s: Seq<char>)
    ensures
        exists|i: int| 0 <= i <= s.len() && recortar_inicio(s) == s.subrange(i, s.len() as int),
    decreases s.len(),
{
    if s.len() > 0 && es_espacio(s[0]) {
        lema_recortar_inicio_tramo(s.skip(1));
        let i = choose|i: int| 0 <= i <= s.skip(1).len() && recortar_inicio(s.skip(1))
            == s.skip(1).subrange(i, s.skip(1).len() as int);
        assert(s.skip(1).subrange(i, s.skip(1).len() as int) =~= s.subrange(i + 1, s.len() as int));
    } else {
        assert(s.subrange(0, s.len() as int) =~= s);
    }
}

/// Trimming adds no character.
pub proof fn lema_recortar_conserva(s: Seq<char>, d: char)
    requires
        !s.contains(d),
    ensures
        !recortar(s).contains(d),
{
    lema_recortar_tramo(s);
    let (i, j) = choose|i: int, j: int| 0 <= i <= j <= s.len() && recortar(s) == s.subrange(i, j);
    lema_tramo_conserva(s, i, j, d);
}

/// Trimming a trailing character adds no character.
pub proof fn lema_recortar_final_conserva(s: Seq<char>, c: char, d: char)
    requires
        !s.contains(d),
    ensures
        !recortar_final(s, c).contains(d),
    decreases s.len(),
{
    if s.len() > 0 && s.last() == c {
        lema_tramo_conserva(s, 0, s.len() - 1, d);
        assert(s.drop_last() =~= s.subrange(0, s.len() - 1));
        lema_recortar_final_conserva(s.drop_last(), c, d);
    }
}

/// The pieces of a split hold only characters of the text.
pub proof fn lema_partir_conserva(s: Seq<char>, p: Seq<char>, d: char)
    requires
        !s.contains(d),
    ensures
        forall|k: int| 0 <= k < partir(s, p).len() ==> !(#[trigger] partir(s, p)[k]).contains(d),
    decreases s.len(),
{
    lema_partir_no_vacio(s, p);
    if p.len() > 0 && empieza_con(s, p) {
        lema_tramo_conserva(s, p.len() as int, s.len() as int, d);
        assert(s.skip(p.len() as int) =~= s.subrange(p.len() as int, s.len() as int));
        lema_partir_conserva(s.skip(p.len() as int), p, d);
        let r = partir(s.skip(p.len() as int), p);
        assert forall|k: int| 0 <= k < partir(s, p).len() implies !(#[trigger] partir(s, p)[k]).contains(d) by {
            if k > 0 {
                assert(partir(s, p)[k] == r[k - 1]);
            }
        }
    } else if s.len() > 0 {
        lema_tramo_conserva(s, 1, s.len() as int, d);
        assert(s.skip(1) =~= s.subrange(1, s.len() as int));
        lema_partir_conserva(s.skip(1), p, d);
        lema_partir_no_vacio(s.skip(1), p);
        let r = partir(s.skip(1), p);
        assert forall|k: int| 0 <= k < partir(s, p).len() implies !(#[trigger] partir(s, p)[k]).contains(d) by {
            if k == 0 {
                let u = seq![s[0]] + r[0];
                if u.contains(d) {
                    let j = choose|j: int| 0 <= j < u.len() && u[j] == d;
                    if j > 0 {
                        assert(u[j] == r[0][j - 1]);
                    }
                }
            }
        }
    }
}

/// The tokens of a text hold only characters of the text.
pub proof fn lema_fichas_conservan(s: Seq<char>, parentesis: bool, d: char)
    requires
        !s.contains(d),
    ensures
        forall|k: int|
            0 <= k < fichas(s, parentesis).len() ==> !(#[trigger] fichas(s, parentesis)[k]).contains(d),
{
    lema_fichas_aparecen(s, parentesis);
    assert forall|k: int| 0 <= k < fichas(s, parentesis).len() implies !(#[trigger] fichas(
        s,
        parentesis,
    )[k]).contains(d) by {
        let w = fichas(s, parentesis)[k];
        assert(contiene(s, w));
        let i = choose|i: int| 0 <= i <= s.len() && #[trigger] empieza_con(s.skip(i), w);
        if w.contains(d) {
            let j = choose|j: int| 0 <= j < w.len() && w[j] == d;
            assert(s.skip(i).take(w.len() as int)[j] == d);
            assert(s[i + j] == d);
        }
    }
}

/// Splitting at commas the text `x`, a comma, then `y` gives the pieces of `x` followed by
/// those of `y`.
proof fn lema_partir_coma_concat(x: Seq<char>, y: Seq<char>)
    ensures
        partir(x + seq![','] + y, seq![',']) == partir(x, seq![',']) + partir(y, seq![',']),
    decreases x.len(),
{
    let coma = seq![','];
    let s = x + coma + y;
    lema_partir_no_vacio(x, coma);
    lema_partir_no_vacio(y, coma);
    if x.len() == 0 {
        assert(s =~= coma + y);
        assert(s.take(1) =~= coma);
        assert(s.skip(1) =~= y);
        assert(partir(x, coma) =~= seq![Seq::<char>::empty()]);
    } else {
        let resto = x.skip(1);
        lema_partir_coma_concat(resto, y);
        lema_partir_no_vacio(resto, coma);
        assert(s.skip(1) =~= resto + coma + y);
        if x[0] == ',' {
            assert(s.take(1) =~= coma);
            assert(x.take(1) =~= coma);
            assert(partir(x, coma) == seq![Seq::<char>::empty()] + partir(resto, coma));
            assert(partir(s, coma) == seq![Seq::<char>::empty()] + partir(resto + coma + y, coma));
            assert(partir(s, coma) =~= partir(x, coma) + partir(y, coma));
        } else {
            assert(s.take(1) != coma) by {
                assert(s.take(1)[0] == x[0]);
            }
            assert(x.take(1) != coma) by {
                assert(x.take(1)[0] == x[0]);
            }
            let r = partir(resto + coma + y, coma);
            let q = partir(resto, coma);
            assert(r == q + partir(y, coma));
            assert(r[0] == q[0]);
            assert(partir(s, coma) =~= partir(x, coma) + partir(y, coma));
        }
    }
}

/// Text without commas is a single piece when split at commas.
proof fn lema_partir_sin_coma(w: Seq<char>)
    requires
        !w.contains(','),
    ensures
        partir(w, seq![',']) == seq![w],
    decreases w.len(),
{
    let coma = seq![','];
    if w.len() == 0 {
        assert(w =~= Seq::<char>::empty());
    } else {
        let resto = w.skip(1);
        assert(!resto.contains(',')) by {
            if resto.contains(',') {
                let j = choose|j: int| 0 <= j < resto.len() && resto[j] == ',';
                assert(w[j + 1] == ',');
            }
        }
        lema_partir_sin_coma(resto);
        assert(w.take(1) != coma) by {
            assert(w.take(1)[0] == w[0]);
            assert(w[0] != ',');
        }
        assert(seq![w[0]] + resto =~= w);
        assert(!empieza_con(w, coma));
        assert(partir(w, coma) == seq![resto].update(0, seq![w[0]] + resto));
        assert(seq![resto].update(0, seq![w[0]] + resto) =~= seq![w]);
    }
}

/// Joining names without commas with commas and splitting at commas gives the names back.
pub proof fn lema_partir_unir_comas(h: Seq<Seq<char>>)
    requires
        h.len() >= 1,
        forall|i: int| 0 <= i < h.len() ==> !(#[trigger] h[i]).contains(','),
    ensures
        partir(unir(h, seq![',']), seq![',']) == h,
    decreases h.len(),
{
    if h.len() == 1 {
        lema_partir_sin_coma(h[0]);
        assert(seq![h[0]] =~= h);
    } else {
        let previo = h.drop_last();
        assert forall|i: int| 0 <= i < previo.len() implies !(#[trigger] previo[i]).contains(',') by {
            assert(previo[i] == h[i]);
        }
        lema_partir_unir_comas(previo);
        lema_partir_coma_concat(unir(previo, seq![',']), h.last());
        assert(!h[h.len() - 1].contains(','));
        lema_partir_sin_coma(h.last());
        assert(previo + seq![h.last()] =~= h);
    }
}

/// Removing a single character distributes over concatenation.
pub proof fn lema_quitar_concat(x: Seq<char>, y: Seq<char>, c: char)
    ensures
        quitar(x + y, seq![c]) == quitar(x, seq![c]) + quitar(y, seq![c]),
    decreases x.len(),
{
    let p = seq![c];
    if x.len() == 0 {
        assert(x + y =~= y);
        assert(quitar(x, p) + quitar(y, p) =~= quitar(y, p));
    } else {
        lema_quitar_concat(x.skip(1), y, c);
        assert((x + y).skip(1) =~= x.skip(1) + y);
        assert((x + y).take(1) =~= x.take(1));
        assert((x + y)[0] == x[0]);
        if empieza_con(x, p) {
            assert(empieza_con(x + y, p));
        } else {
            assert(!empieza_con(x + y, p));
            assert(seq![x[0]] + (quitar(x.skip(1), p) + quitar(y, p)) =~= (seq![x[0]] + quitar(
                x.skip(1),
                p,
            )) + quitar(y, p));
        }
    }
}

/// Removing a character that does not occur changes nothing.
pub proof fn lema_quitar_ausente(s: Seq<char>, c: char)
    requires
        !s.contains(c),
    ensures
        quitar(s, seq![c]) == s,
    decreases s.len(),
{
    if s.len() > 0 {
        assert(!s.skip(1).contains(c)) by {
            if s.skip(1).contains(c) {
                let j = choose|j: int| 0 <= j < s.skip(1).len() && s.skip(1)[j] == c;
                assert(s[j + 1] == c);
            }
        }
        lema_quitar_ausente(s.skip(1), c);
        assert(s.take(1) != seq![c]) by {
            assert(s.take(1)[0] == s[0]);
        }
        assert(seq![s[0]] + s.skip(1) =~= s);
    }
}

/// Joining pieces without `d` with a separator without `d` gives text without `d`.
pub proof fn lema_unir_conserva(ws: Seq<Seq<char>>, sep: Seq<char>, d: char)
    requires
        !sep.contains(d),
        forall|i: int| 0 <= i < ws.len() ==> !(#[trigger] ws[i]).contains(d),
    ensures
        !unir(ws, sep).contains(d),
    decreases ws.len(),
{
    if ws.len() > 1 {
        let v = ws.drop_last();
        assert forall|i: int| 0 <= i < v.len() implies !(#[trigger] v[i]).contains(d) by {
            assert(v[i] == ws[i]);
        }
        lema_unir_conserva(v, sep, d);
        let u = unir(v, sep) + sep + ws.last();
        assert(!ws[ws.len() - 1].contains(d));
        if u.contains(d) {
            let j = choose|j: int| 0 <= j < u.len() && u[j] == d;
            let a = unir(v, sep);
            if j < a.len() {
                assert(u[j] == a[j]);
            } else if j < a.len() + sep.len() {
                assert(u[j] == sep[j - a.len()]);
            } else {
                assert(u[j] == ws.last()[j - a.len() - sep.len()]);
            }
        }
    }
}

/// The joined text starts with the first character of the first piece and ends with the
/// last character of the last piece.
pub proof fn lema_unir_extremos(ws: Seq<Seq<char>>, sep: Seq<char>)
    requires
        ws.len() >= 1,
        forall|i: int| 0 <= i < ws.len() ==> (#[trigger] ws[i]).len() > 0,
    ensures
        unir(ws, sep).len() > 0,
        unir(ws, sep)[0] == ws[0][0],
        unir(ws, sep).last() == ws.last().last(),
    decreases ws.len(),
{
    if ws.len() > 1 {
        let v = ws.drop_last();
        assert forall|i: int| 0 <= i < v.len() implies (#[trigger] v[i]).len() > 0 by {
            assert(v[i] == ws[i]);
        }
        lema_unir_extremos(v, sep);
        assert(ws[ws.len() - 1].len() > 0);
        let a = unir(v, sep);
        assert((a + sep + ws.last())[0] == a[0]);
        assert(v[0] == ws[0]);
    }
}


/// Joining two non-empty runs of pieces is joining each and putting the separator between.
pub proof fn lema_unir_concat(x: Seq<Seq<char>>, y: Seq<Seq<char>>, sep: Seq<char>)
    requires
        x.len() >= 1,
        y.len() >= 1,
    ensures
        unir(x + y, sep) == unir(x, sep) + sep + unir(y, sep),
    decreases y.len(),
{
    if y.len() == 1 {
        assert((x + y).drop_last() =~= x);
        assert((x + y).last() == y[0]);
    } else {
        let y1 = y.drop_last();
        lema_unir_concat(x, y1, sep);
        assert((x + y).drop_last() =~= x + y1);
        assert((x + y).last() == y.last());
        assert(unir(x + y, sep) =~= unir(x, sep) + sep + (unir(y1, sep) + sep + y.last()));
    }
}

/// Text in which `p` does not occur is a single piece.
pub proof fn lema_partir_sin_patron(y: Seq<char>, p: Seq<char>)
    requires
        p.len() > 0,
        !contiene(y, p),
    ensures
        partir(y, p) == seq![y],
    decreases y.len(),
{
    assert(y.skip(0) =~= y);
    if y.len() > 0 {
        assert(!contiene(y.skip(1), p)) by {
            if contiene(y.skip(1), p) {
                let i = choose|i: int| 0 <= i <= y.skip(1).len() && #[trigger] empieza_con(y.skip(1).skip(i), p);
                assert(y.skip(1).skip(i) =~= y.skip(i + 1));
                assert(empieza_con(y.skip(i + 1), p));
            }
        }
        lema_partir_sin_patron(y.skip(1), p);
        assert(!empieza_con(y, p));
        assert(seq![y[0]] + y.skip(1) =~= y);
        assert(seq![y.skip(1)].update(0, seq![y[0]] + y.skip(1)) =~= seq![y]);
    } else {
        assert(!empieza_con(y, p));
        assert(y =~= Seq::<char>::empty());
    }
}

/// When `p` starts nowhere inside `x`, splitting `x`, `p`, then `y` gives `x` and then
/// the pieces of `y`.
pub proof fn lema_partir_primera(x: Seq<char>, p: Seq<char>, y: Seq<char>)
    requires
        p.len() > 0,
        forall|i: int| 0 <= i < x.len() ==> !#[trigger] empieza_con((x + p + y).skip(i), p),
    ensures
        partir(x + p + y, p) == seq![x] + partir(y, p),
    decreases x.len(),
{
    let s = x + p + y;
    if x.len() == 0 {
        assert(s =~= p + y);
        assert(x =~= Seq::<char>::empty());
        assert(s.take(p.len() as int) =~= p);
        assert(s.skip(p.len() as int) =~= y);
    } else {
        let x1 = x.skip(1);
        assert(s.skip(1) =~= x1 + p + y);
        assert forall|i: int| 0 <= i < x1.len() implies !#[trigger] empieza_con((x1 + p + y).skip(i), p) by {
            assert((x1 + p + y).skip(i) =~= s.skip(i + 1));
            assert(!empieza_con(s.skip(i + 1), p));
        }
        lema_partir_primera(x1, p, y);
        assert(s.skip(0) =~= s);
        assert(!empieza_con(s, p));
        lema_partir_no_vacio(y, p);
        assert(s[0] == x[0]);
        assert(seq![x[0]] + x1 =~= x);
        assert(partir(s, p) == partir(s.skip(1), p).update(0, seq![s[0]] + partir(s.skip(1), p)[0]));
        assert((seq![x1] + partir(y, p)).update(0, seq![x[0]] + x1) =~= seq![x] + partir(y, p));
    }
}


/// A pattern without spaces that occurs in `a`, a space, then `b` occurs in `a` or in `b`.
pub proof fn lema_contiene_por_espacio(a: Seq<char>, b: Seq<char>, p: Seq<char>)
    requires
        !p.contains(' '),
        contiene(a + seq![' '] + b, p),
    ensures
        contiene(a, p) || contiene(b, p),
{
    let s = a + seq![' '] + b;
    let i = choose|i: int| 0 <= i <= s.len() && #[trigger] empieza_con(s.skip(i), p);
    if i + p.len() <= a.len() {
        assert(a.skip(i).take(p.len() as int) =~= s.skip(i).take(p.len() as int));
        assert(empieza_con(a.skip(i), p));
    } else if i > a.len() {
        let k = i - a.len() - 1;
        assert(b.skip(k).take(p.len() as int) =~= s.skip(i).take(p.len() as int));
        assert(empieza_con(b.skip(k), p));
    } else {
        let k = a.len() - i;
        assert(s.skip(i).take(p.len() as int)[k] == s[a.len() as int]);
        assert(p[k] == ' ');
    }
}

/// Nothing non-empty occurs in the empty text.
pub proof fn lema_no_contiene_vacio(p: Seq<char>)
    requires
        p.len() > 0,
    ensures
        !contiene(Seq::<char>::empty(), p),
{
}

/// Removing a pattern that does not occur changes nothing.
pub proof fn lema_quitar_sin_patron(s: Seq<char>, p: Seq<char>)
    requires
        p.len() > 0,
        !contiene(s, p),
    ensures
        quitar(s, p) == s,
    decreases s.len(),
{
    if s.len() > 0 {
        assert(s.skip(0) =~= s);
        assert(!contiene(s.skip(1), p)) by {
            if contiene(s.skip(1), p) {
                let i = choose|i: int| 0 <= i <= s.skip(1).len() && #[trigger] empieza_con(s.skip(1).skip(i), p);
                assert(s.skip(1).skip(i) =~= s.skip(i + 1));
                assert(empieza_con(s.skip(i + 1), p));
            }
        }
        lema_quitar_sin_patron(s.skip(1), p);
        assert(!empieza_con(s, p));
        assert(seq![s[0]] + s.skip(1) =~= s);
    }
}

/// A character absent from both parts is absent from their concatenation.
pub proof fn lema_no_contiene_concat(a: Seq<char>, b: Seq<char>, c: char)
    requires
        !a.contains(c),
        !b.contains(c),
    ensures
        !(a + b).contains(c),
{
    if (a + b).contains(c) {
        let j = choose|j: int| 0 <= j < (a + b).len() && (a + b)[j] == c;
        if j < a.len() {
            assert((a + b)[j] == a[j]);
        } else {
            assert((a + b)[j] == b[j - a.len()]);
        }
    }
}

/// Text without whitespace is its own trim.
pub proof fn lema_recortar_sin_espacios(s: Seq<char>)
    requires
        forall|i: int| 0 <= i < s.len() ==> !es_espacio(#[trigger] s[i]),
    ensures
        recortar(s) == s,
{
    if s.len() > 0 {
        assert(!es_espacio(s[s.len() - 1]));
        assert(!es_espacio(s[0]));
    }
}


/// A pattern without spaces occurs in pieces joined by spaces only if it occurs in a piece.
pub proof fn lema_unir_sin_patron(parts: Seq<Seq<char>>, p: Seq<char>)
    requires
        p.len() > 0,
        !p.contains(' '),
        forall|i: int| 0 <= i < parts.len() ==> !contiene(#[trigger] parts[i], p),
    ensures
        !contiene(unir(parts, seq![' ']), p),
    decreases parts.len(),
{
    if parts.len() == 0 {
        lema_no_contiene_vacio(p);
    } else if parts.len() == 1 {
    } else {
        let v = parts.drop_last();
        assert forall|i: int| 0 <= i < v.len() implies !contiene(#[trigger] v[i], p) by {
            assert(v[i] == parts[i]);
        }
        lema_unir_sin_patron(v, p);
        assert(!contiene(parts[parts.len() - 1], p));
        if contiene(unir(parts, seq![' ']), p) {
            lema_contiene_por_espacio(unir(v, seq![' ']), parts.last(), p);
        }
    }
}

/// A pattern occurs nowhere when its first character does not occur.
pub proof fn lema_no_contiene_por_inicial(s: Seq<char>, p: Seq<char>)
    requires
        p.len() > 0,
        !s.contains(p[0]),
    ensures
        !contiene(s, p),
{
    if contiene(s, p) {
        let i = choose|i: int| 0 <= i <= s.len() && #[trigger] empieza_con(s.skip(i), p);
        assert(s.skip(i).take(p.len() as int)[0] == s[i]);
    }
}

/// Replacing a pattern that starts nowhere in `s` changes nothing.
pub proof fn lema_reemplazar_sin_patron(s: Seq<char>, p: Seq<char>, r: Seq<char>)
    requires
        p.len() > 0,
        forall|i: int| 0 <= i < s.len() ==> !#[trigger] empieza_con(s.skip(i), p),
    ensures
        reemplazar(s, p, r) == s,
    decreases s.len(),
{
    if s.len() > 0 {
        assert(s.skip(0) =~= s);
        assert(!empieza_con(s, p));
        let t = s.skip(1);
        assert forall|i: int| 0 <= i < t.len() implies !#[trigger] empieza_con(t.skip(i), p) by {
            assert(t.skip(i) =~= s.skip(i + 1));
            assert(!empieza_con(s.skip(i + 1), p));
        }
        lema_reemplazar_sin_patron(t, p, r);
        assert(seq![s[0]] + t =~= s);
    }
}

} // verus!
