use vstd::prelude::*;
use crate::errors::SqlError;
use crate::manejo_de_string::{
    cabecera_select, clave_from, clave_order, clave_order_by, columnas_select,
    condiciones_unidas, condiciones_where, nombre_select, orden_incompleto, separar_datos_select,
    separar_order, tiene_order_by, where_y_from,
};
use crate::texto::{
    a_cadena, a_caracteres, caracteres, fichas, iguales, lema_partir_unir_comas,
    palabras, partir, partir_por, recortar, recortar_espacios, unir, unir_tramo, vistas,
    vistas_cadenas,
};

verus! {

/// Lexicographic order on character sequences: `a` comes before `b` or equals it. This
/// is the order of `str`, which compares code points from the left.
pub open spec fn precede(a: Seq<char>, b: Seq<char>) -> bool
    decreases a.len(),
{
    if a.len() == 0 {
        true
    } else if b.len() == 0 {
        false
    } else if a[0] != b[0] {
        a[0] < b[0]
    } else {
        precede(a.skip(1), b.skip(1))
    }
}

/// Whether `a` comes before `b` or equals it, lexicographically.
pub fn precede_cadenas(a: &String, b: &String) -> (r: bool)
    ensures
        r == precede(a@, b@),
{
    let x = caracteres(a.as_str());
    let y = caracteres(b.as_str());
    let mut i: usize = 0;
    assert(x@.skip(0) =~= x@);
    assert(y@.skip(0) =~= y@);
    while i < x.len() && i < y.len()
        invariant
            i <= x.len(),
            i <= y.len(),
            x@ == a@,
            y@ == b@,
            precede(a@, b@) == precede(x@.skip(i as int), y@.skip(i as int)),
        decreases x.len() - i,
    {
        if x[i] != y[i] {
            return x[i] < y[i];
        }
        assert(x@.skip(i as int).skip(1) =~= x@.skip(i + 1));
        assert(y@.skip(i as int).skip(1) =~= y@.skip(i + 1));
        i = i + 1;
    }
    i == x.len()
}

/// The sort key of a row: its cell at `pos`.
pub open spec fn clave(fila: Vec<String>, pos: int) -> Seq<char> {
    fila@[pos]@
}

/// Whether row `a` may stay before row `x`: its key comes first or is equal, in
/// ascending order, or comes last or is equal, in descending order.
pub open spec fn va_antes(a: Vec<String>, x: Vec<String>, pos: int, asc: bool) -> bool {
    if asc {
        precede(clave(a, pos), clave(x, pos))
    } else {
        precede(clave(x, pos), clave(a, pos))
    }
}

/// Whether row `a` may stay before row `x`.
fn va_antes_filas(a: &Vec<String>, x: &Vec<String>, pos: usize, asc: bool) -> (r: bool)
    requires
        pos < a.len(),
        pos < x.len(),
    ensures
        r == va_antes(*a, *x, pos as int, asc),
{
    if asc {
        precede_cadenas(&a[pos], &x[pos])
    } else {
        precede_cadenas(&x[pos], &a[pos])
    }
}

/// `x` placed into `s` after every row that may stay before it.
pub open spec fn insertar(s: Seq<Vec<String>>, x: Vec<String>, pos: int, asc: bool) -> Seq<
    Vec<String>,
>
    decreases s.len(),
{
    if s.len() == 0 {
        seq![x]
    } else if !va_antes(s[0], x, pos, asc) {
        seq![x] + s
    } else {
        seq![s[0]] + insertar(s.skip(1), x, pos, asc)
    }
}

/// The rows sorted by their cell at `pos`, ascending or descending; rows with equal keys
/// keep their order (a stable sort).
pub open spec fn ordenar_filas(s: Seq<Vec<String>>, pos: int, asc: bool) -> Seq<Vec<String>>
    decreases s.len(),
{
    if s.len() == 0 {
        s
    } else {
        insertar(ordenar_filas(s.drop_last(), pos, asc), s.last(), pos, asc)
    }
}

/// Inserting at the first row that may not stay before `x`.
proof fn lema_insertar_en(s: Seq<Vec<String>>, x: Vec<String>, pos: int, asc: bool, j: int)
    requires
        0 <= j <= s.len(),
        forall|k: int| 0 <= k < j ==> va_antes(#[trigger] s[k], x, pos, asc),
        j < s.len() ==> !va_antes(s[j], x, pos, asc),
    ensures
        insertar(s, x, pos, asc) == s.insert(j, x),
    decreases s.len(),
{
    if s.len() == 0 {
        assert(s.insert(j, x) =~= seq![x]);
    } else if j == 0 {
        assert(s.insert(j, x) =~= seq![x] + s);
    } else {
        let t = s.skip(1);
        assert forall|k: int| 0 <= k < j - 1 implies va_antes(#[trigger] t[k], x, pos, asc) by {
            assert(t[k] == s[k + 1]);
        }
        if j < s.len() {
            assert(t[j - 1] == s[j]);
        }
        lema_insertar_en(t, x, pos, asc, j - 1);
        assert(s.insert(j, x) =~= seq![s[0]] + t.insert(j - 1, x));
    }
}

/// Sorts the rows, as `ordenar_filas` describes, by insertion.
fn ordenar_por_columna(filas: Vec<Vec<String>>, pos: usize, asc: bool) -> (r: Vec<Vec<String>>)
    requires
        filas.len() >= 2 ==> forall|k: int| 0 <= k < filas.len() ==> pos < (#[trigger] filas@[k]).len(),
    ensures
        r@ == ordenar_filas(filas@, pos as int, asc),
{
    let ghost entrada = filas@;
    let n = filas.len();
    let mut resto = filas;
    let mut r: Vec<Vec<String>> = Vec::new();
    let mut i: usize = 0;
    assert(entrada.take(0) =~= Seq::<Vec<String>>::empty());
    assert(entrada.skip(0) =~= entrada);
    while i < n
        invariant
            n == entrada.len(),
            i <= n,
            resto@ == entrada.skip(i as int),
            r@ == ordenar_filas(entrada.take(i as int), pos as int, asc),
            n >= 2 ==> forall|k: int| 0 <= k < n ==> pos < (#[trigger] entrada[k]).len(),
            n >= 2 ==> forall|k: int| 0 <= k < r.len() ==> pos < (#[trigger] r@[k]).len(),
            r.len() == i,
        decreases n - i,
    {
        let x = resto.remove(0);
        assert(x == entrada[i as int]);
        let mut j: usize = 0;
        while j < r.len() && va_antes_filas(&r[j], &x, pos, asc)
            invariant
                j <= r.len(),
                r.len() == i < n,
                n >= 2 ==> pos < x.len(),
                n >= 2 ==> forall|k: int| 0 <= k < r.len() ==> pos < (#[trigger] r@[k]).len(),
                forall|k: int| 0 <= k < j ==> va_antes(#[trigger] r@[k], x, pos as int, asc),
            decreases r.len() - j,
        {
            j = j + 1;
        }
        proof {
            lema_insertar_en(r@, x, pos as int, asc, j as int);
            assert(entrada.take(i + 1).drop_last() =~= entrada.take(i as int));
        }
        r.insert(j, x);
        assert(resto@ =~= entrada.skip(i + 1));
        i = i + 1;
    }
    assert(entrada.take(n as int) =~= entrada);
    r
}


/// What `str::to_lowercase` returns for the given characters: the lowercase mapping of
/// Unicode, which depends on the characters alone.
pub uninterp spec fn minusculas(s: Seq<char>) -> Seq<char>;

/// The lowercase form of `s`, computed by `str::to_lowercase`; the contract names the
/// result and says nothing more of it.
#[verifier::external_body]
fn a_minusculas(s: &String) -> (r: String)
    ensures
        r@ == minusculas(s@),
{
    s.to_lowercase()
}

/// The word `ASC`.
pub open spec fn clave_asc() -> Seq<char> {
    seq!['A', 'S', 'C']
}

/// The word `DESC`.
pub open spec fn clave_desc() -> Seq<char> {
    seq!['D', 'E', 'S', 'C']
}

/// Whether the direction of an ordering is `ASC` or `DESC`.
pub open spec fn direccion_valida(direccion: Seq<char>) -> bool {
    direccion == clave_asc() || direccion == clave_desc()
}

/// What `ordenar_matriz` returns once the column of the ordering has been found at
/// `pos`: the header row, then the other rows sorted by their cell at `pos`, ascending
/// for `ASC` and descending for `DESC`; any other direction is a syntax error.
pub open spec fn matriz_ordenada(
    matriz: Seq<Vec<String>>,
    direccion: Seq<char>,
    pos: int,
) -> Result<Seq<Vec<String>>, SqlError> {
    if direccion == clave_asc() {
        Ok(seq![matriz[0]] + ordenar_filas(matriz.skip(1), pos, true))
    } else if direccion == clave_desc() {
        Ok(seq![matriz[0]] + ordenar_filas(matriz.skip(1), pos, false))
    } else {
        Err(SqlError::InvalidSyntax)
    }
}

/// The column by which a `SELECT` is sorted: the first word of the ordering in lowercase.
pub fn clave_de_orden(ordenamiento: &Vec<String>) -> (r: String)
    requires
        ordenamiento.len() >= 1,
    ensures
        r@ == minusculas(ordenamiento@[0]@),
{
    a_minusculas(&ordenamiento[0])
}

/// Sorts the rows of a `SELECT` result after its header row (`matriz[0]`) by the column
/// `columna` (the lowercased first word of the ordering), in the direction
/// `ordenamiento[1]` (`ASC` or `DESC`). The column is looked up by `posicion_en_header`;
/// an error of the lookup is returned as it is. The sort is stable.
pub fn ordenar_matriz_por_columna<P>(
    matriz: Vec<Vec<String>>,
    ordenamiento: Vec<String>,
    columna: &String,
    posicion_en_header: &P,
) -> (r: Result<Vec<Vec<String>>, SqlError>) where P: Fn(&String) -> Result<usize, SqlError>
    requires
        matriz.len() >= 1,
        posicion_en_header.requires((columna,)),
        forall|p: usize|
            #[trigger] posicion_en_header.ensures((columna,), Ok(p)) ==> {
                &&& ordenamiento.len() >= 2
                &&& direccion_valida(ordenamiento@[1]@) && matriz.len() >= 3 ==> forall|k: int|
                    1 <= k < matriz.len() ==> p < (#[trigger] matriz@[k]).len()
            },
    ensures
        match r {
            Ok(m) => exists|p: usize|
                {
                    &&& #[trigger] posicion_en_header.ensures((columna,), Ok(p))
                    &&& matriz_ordenada(matriz@, ordenamiento@[1]@, p as int) == Ok::<
                        Seq<Vec<String>>,
                        SqlError,
                    >(m@)
                },
            Err(e) => {
                ||| posicion_en_header.ensures((columna,), Err(e))
                ||| exists|p: usize|
                    {
                        &&& #[trigger] posicion_en_header.ensures((columna,), Ok(p))
                        &&& matriz_ordenada(matriz@, ordenamiento@[1]@, p as int) == Err::<
                            Seq<Vec<String>>,
                            SqlError,
                        >(e)
                    }
            },
        },
{
    let ghost entrada = matriz@;
    let mut matriz = matriz;
    let fila_1 = matriz.remove(0);
    assert(matriz@ =~= entrada.skip(1));
    let pos = match posicion_en_header(columna) {
        Ok(pos) => pos,
        Err(e) => {
            return Err(e);
        },
    };
    let asc = vec!['A', 'S', 'C'];
    let desc = vec!['D', 'E', 'S', 'C'];
    assert(asc@ =~= clave_asc());
    assert(desc@ =~= clave_desc());
    let direccion = caracteres(ordenamiento[1].as_str());
    let ascendente = if iguales(&direccion, &asc) {
        true
    } else if iguales(&direccion, &desc) {
        false
    } else {
        assert(matriz_ordenada(entrada, ordenamiento@[1]@, pos as int) == Err::<
            Seq<Vec<String>>,
            SqlError,
        >(SqlError::InvalidSyntax));
        assert(posicion_en_header.ensures((columna,), Ok(pos)));
        return Err(SqlError::InvalidSyntax);
    };
    proof {
        if matriz.len() >= 2 {
            assert forall|k: int| 0 <= k < matriz.len() implies pos < (#[trigger] matriz@[k]).len() by {
                assert(matriz@[k] == entrada[k + 1]);
            }
        }
    }
    let ordenadas = ordenar_por_columna(matriz, pos, ascendente);
    let mut resultado: Vec<Vec<String>> = Vec::new();
    resultado.push(fila_1);
    let mut ordenadas = ordenadas;
    resultado.append(&mut ordenadas);
    assert(resultado@ =~= seq![entrada[0]] + ordenar_filas(entrada.skip(1), pos as int, ascendente));
    Ok(resultado)
}

/// Sorts the rows of a `SELECT` result after its header row (`matriz[0]`), by the column
/// named in `ordenamiento[0]`, looked up in lowercase by `posicion_en_header`, in the
/// direction `ordenamiento[1]` (`ASC` or `DESC`). The sort is stable.
pub(crate) fn ordenar_matriz<P>(
    matriz: Vec<Vec<String>>,
    ordenamiento: Vec<String>,
    posicion_en_header: &P,
) -> (r: Result<Vec<Vec<String>>, SqlError>) where P: Fn(&String) -> Result<usize, SqlError>
    requires
        matriz.len() >= 1,
        ordenamiento.len() >= 1,
        forall|c: &String| #[trigger] posicion_en_header.requires((c,)),
        forall|c: &String, p: usize|
            c@ == minusculas(ordenamiento@[0]@) && #[trigger] posicion_en_header.ensures(
                (c,),
                Ok(p),
            ) ==> {
                &&& ordenamiento.len() >= 2
                &&& direccion_valida(ordenamiento@[1]@) && matriz.len() >= 3 ==> forall|k: int|
                    1 <= k < matriz.len() ==> p < (#[trigger] matriz@[k]).len()
            },
    ensures
        match r {
            Ok(m) => orden_posible(m@, matriz@, ordenamiento@, posicion_en_header),
            Err(e) => error_de_orden_posible(e, matriz@, ordenamiento@, posicion_en_header),
        },
{
    let columna = clave_de_orden(&ordenamiento);
    ordenar_matriz_por_columna(matriz, ordenamiento, &columna, posicion_en_header)
}

/// Every sequence comes before itself, and of any two one comes before the other.
proof fn lema_precede_total(a: Seq<char>, b: Seq<char>)
    ensures
        precede(a, a),
        precede(a, b) || precede(b, a),
    decreases a.len(),
{
    if a.len() > 0 && b.len() > 0 {
        lema_precede_total(a.skip(1), b.skip(1));
    }
    if a.len() > 0 {
        lema_precede_total(a.skip(1), a.skip(1));
    }
}

/// The lexicographic order is transitive.
proof fn lema_precede_transitiva(a: Seq<char>, b: Seq<char>, c: Seq<char>)
    requires
        precede(a, b),
        precede(b, c),
    ensures
        precede(a, c),
    decreases a.len(),
{
    if a.len() > 0 && b.len() > 0 && c.len() > 0 && a[0] == b[0] && b[0] == c[0] {
        lema_precede_transitiva(a.skip(1), b.skip(1), c.skip(1));
    }
}

/// Whether the rows are in order by their cell at `pos`.
pub open spec fn filas_en_orden(s: Seq<Vec<String>>, pos: int, asc: bool) -> bool {
    forall|i: int, j: int| 0 <= i < j < s.len() ==> va_antes(#[trigger] s[i], #[trigger] s[j], pos, asc)
}

/// Inserting places the row at some index of the sequence.
proof fn lema_insertar_indice(s: Seq<Vec<String>>, x: Vec<String>, pos: int, asc: bool) -> (j: int)
    ensures
        0 <= j <= s.len(),
        insertar(s, x, pos, asc) == s.insert(j, x),
        forall|i: int| 0 <= i < j ==> va_antes(#[trigger] s[i], x, pos, asc),
        j < s.len() ==> !va_antes(s[j], x, pos, asc),
    decreases s.len(),
{
    if s.len() == 0 {
        assert(s.insert(0, x) =~= seq![x]);
        0
    } else if !va_antes(s[0], x, pos, asc) {
        assert(s.insert(0, x) =~= seq![x] + s);
        0
    } else {
        let t = s.skip(1);
        let k = lema_insertar_indice(t, x, pos, asc);
        assert(s.insert(k + 1, x) =~= seq![s[0]] + t.insert(k, x));
        assert forall|i: int| 0 <= i < k + 1 implies va_antes(#[trigger] s[i], x, pos, asc) by {
            if i > 0 {
                assert(s[i] == t[i - 1]);
            }
        }
        if k + 1 < s.len() {
            assert(s[k + 1] == t[k]);
        }
        k + 1
    }
}

/// Inserting into rows in order keeps them in order.
proof fn lema_insertar_en_orden(s: Seq<Vec<String>>, x: Vec<String>, pos: int, asc: bool)
    requires
        filas_en_orden(s, pos, asc),
    ensures
        filas_en_orden(insertar(s, x, pos, asc), pos, asc),
    decreases s.len(),
{
    let r = insertar(s, x, pos, asc);
    if s.len() == 0 {
    } else if !va_antes(s[0], x, pos, asc) {
        lema_precede_total(clave(s[0], pos), clave(x, pos));
        assert forall|i: int, j: int| 0 <= i < j < r.len() implies va_antes(
            #[trigger] r[i],
            #[trigger] r[j],
            pos,
            asc,
        ) by {
            if i == 0 {
                assert(r[j] == s[j - 1]);
                if j > 1 {
                    assert(va_antes(s[0], s[j - 1], pos, asc));
                    if asc {
                        lema_precede_transitiva(clave(x, pos), clave(s[0], pos), clave(s[j - 1], pos));
                    } else {
                        lema_precede_transitiva(clave(s[j - 1], pos), clave(s[0], pos), clave(x, pos));
                    }
                }
            } else {
                assert(r[i] == s[i - 1]);
                assert(r[j] == s[j - 1]);
            }
        }
    } else {
        let t = s.skip(1);
        assert forall|i: int, j: int| 0 <= i < j < t.len() implies va_antes(
            #[trigger] t[i],
            #[trigger] t[j],
            pos,
            asc,
        ) by {
            assert(t[i] == s[i + 1]);
            assert(t[j] == s[j + 1]);
        }
        lema_insertar_en_orden(t, x, pos, asc);
        let k = lema_insertar_indice(t, x, pos, asc);
        let u = insertar(t, x, pos, asc);
        assert(r == seq![s[0]] + u);
        assert forall|i: int, j: int| 0 <= i < j < r.len() implies va_antes(
            #[trigger] r[i],
            #[trigger] r[j],
            pos,
            asc,
        ) by {
            if i == 0 {
                assert(r[j] == u[j - 1]);
                if j - 1 == k {
                    assert(u[j - 1] == x);
                } else if j - 1 < k {
                    assert(u[j - 1] == t[j - 1]);
                    assert(t[j - 1] == s[j]);
                } else {
                    assert(u[j - 1] == t[j - 2]);
                    assert(t[j - 2] == s[j - 1]);
                }
            } else {
                assert(r[i] == u[i - 1]);
                assert(r[j] == u[j - 1]);
            }
        }
    }
}

/// Sorting the rows of a result keeps every row, as often as it occurs, and puts the rows
/// in order by their cell at `pos`: ascending when `asc` is set, descending otherwise.
pub proof fn ley_ordenar_filas(s: Seq<Vec<String>>, pos: int, asc: bool)
    ensures
        ordenar_filas(s, pos, asc).to_multiset() == s.to_multiset(),
        filas_en_orden(ordenar_filas(s, pos, asc), pos, asc),
    decreases s.len(),
{
    if s.len() > 0 {
        let previo = s.drop_last();
        ley_ordenar_filas(previo, pos, asc);
        let o = ordenar_filas(previo, pos, asc);
        let j = lema_insertar_indice(o, s.last(), pos, asc);
        lema_insertar_en_orden(o, s.last(), pos, asc);
        vstd::seq_lib::to_multiset_insert(o, j, s.last());
        vstd::seq_lib::to_multiset_build(previo, s.last());
        assert(previo.push(s.last()) =~= s);
    }
}


/// A `SELECT` is accepted when it has the words `WHERE` and `FROM` and its conditions
/// do not have the word `ORDER` without the word `BY`.
pub open spec fn select_valido(q: Seq<char>) -> bool {
    where_y_from(q) && !orden_incompleto(condiciones_where(q))
}

/// The pieces of the conditions of a `SELECT` around the first `ORDER BY`.
pub open spec fn partes_order_by(q: Seq<char>) -> Seq<Seq<char>> {
    partir(condiciones_unidas(condiciones_where(q)), clave_order_by())
}

/// Whether the conditions of a `SELECT` have the word `ORDER`.
pub open spec fn con_order(q: Seq<char>) -> bool {
    palabras(condiciones_unidas(condiciones_where(q))).contains(clave_order())
}

/// The parsing that `select` does before it reads the table: the table name, the
/// selected columns, the condition tokens and the words of the ordering. With `ORDER BY`
/// the condition tokens are those before it and the ordering the words after it; without
/// `ORDER` the ordering is empty. A query without `WHERE` or `FROM`, or with `ORDER` but
/// without `BY`, is a syntax error.
pub fn preparar_select(consulta_sql: &str) -> (r: Result<
    (String, String, Vec<String>, Vec<String>),
    SqlError,
>)
    requires
        where_y_from(consulta_sql@) ==> partir(cabecera_select(consulta_sql@), clave_from()).len()
            >= 2,
        where_y_from(consulta_sql@) && tiene_order_by(condiciones_where(consulta_sql@))
            ==> partes_order_by(consulta_sql@).len() >= 2,
    ensures
        match r {
            Ok((nombre, columnas, condiciones, ordenamiento)) => {
                &&& select_valido(consulta_sql@)
                &&& nombre@ == nombre_select(consulta_sql@)
                &&& columnas@ == columnas_select(consulta_sql@)
                &&& con_order(consulta_sql@) ==> {
                    &&& vistas_cadenas(condiciones@) == fichas(partes_order_by(consulta_sql@)[0], true)
                    &&& vistas_cadenas(ordenamiento@) == palabras(partes_order_by(consulta_sql@)[1])
                }
                &&& !con_order(consulta_sql@) ==> {
                    &&& vistas_cadenas(condiciones@) == condiciones_where(consulta_sql@)
                    &&& ordenamiento@.len() == 0
                }
            },
            Err(e) => !select_valido(consulta_sql@) && e == SqlError::InvalidSyntax,
        },
{
    let (nombre, columnas, condiciones) = match separar_datos_select(consulta_sql) {
        Ok(partes) => partes,
        Err(e) => {
            return Err(e);
        },
    };
    let (condiciones, ordenamiento) = match separar_order(condiciones) {
        Ok(partes) => partes,
        Err(e) => {
            return Err(e);
        },
    };
    Ok((nombre, columnas, condiciones, ordenamiento))
}

/// The columns a `SELECT` shows: all the header, joined by commas, for `*`; otherwise the
/// columns as written.
pub open spec fn columnas_mostradas(columnas: Seq<char>, header: Seq<Seq<char>>) -> Seq<char> {
    if columnas == seq!['*'] {
        unir(header, seq![','])
    } else {
        columnas
    }
}

/// Expands `*` into the header's columns joined by commas.
pub fn columnas_a_mostrar(columnas: String, header: &Vec<String>) -> (r: String)
    ensures
        r@ == columnas_mostradas(columnas@, vistas_cadenas(header@)),
{
    let c = caracteres(columnas.as_str());
    let asterisco = vec!['*'];
    assert(asterisco@ =~= seq!['*']);
    if iguales(&c, &asterisco) {
        let piezas = a_caracteres(header);
        let unidas = unir_tramo(&piezas, 0, piezas.len(), ',');
        assert(vistas(piezas@).subrange(0, piezas.len() as int) =~= vistas(piezas@));
        a_cadena(&unidas)
    } else {
        columnas
    }
}

/// The names of the selected columns: split at each comma, each trimmed.
pub open spec fn nombres_de_columnas(columnas: Seq<char>) -> Seq<Seq<char>> {
    partir(columnas, seq![',']).map_values(|c: Seq<char>| recortar(c))
}

/// Splits the selected columns at each comma and trims each name.
pub fn separar_columnas(columnas: &str) -> (r: Vec<String>)
    ensures
        vistas_cadenas(r@) == nombres_de_columnas(columnas@),
{
    let c = caracteres(columnas);
    let coma = vec![','];
    assert(coma@ =~= seq![',']);
    let piezas = partir_por(&c, &coma);
    let ghost objetivo = nombres_de_columnas(columnas@);
    let mut r: Vec<String> = Vec::new();
    let n = piezas.len();
    for i in 0..n
        invariant
            n == piezas.len(),
            vistas(piezas@) == partir(columnas@, seq![',']),
            objetivo == nombres_de_columnas(columnas@),
            vistas_cadenas(r@) == objetivo.take(i as int),
    {
        let nombre = a_cadena(&recortar_espacios(&piezas[i]));
        let ghost antes = r@;
        r.push(nombre);
        assert(vistas_cadenas(r@) =~= vistas_cadenas(antes).push(nombre@));
        assert(objetivo.take(i + 1) =~= objetivo.take(i as int).push(objetivo[i as int]));
    }
    assert(objetivo.take(n as int) =~= objetivo);
    r
}

/// A row restricted to the given positions, joined by commas: one line of a `SELECT`.
pub open spec fn linea_de(fila: Seq<String>, posiciones: Seq<usize>) -> Seq<char> {
    unir(posiciones.map_values(|i: usize| fila[i as int]@), seq![','])
}

/// The lines that a `SELECT` prints: each row restricted to the selected positions, in
/// the order of the positions, joined by commas.
pub fn proyectar_filas(matriz: &Vec<Vec<String>>, posiciones: &Vec<usize>) -> (r: Vec<String>)
    requires
        forall|k: int, i: int|
            #![trigger matriz@[k], posiciones@[i]]
            0 <= k < matriz.len() && 0 <= i < posiciones.len() ==> posiciones@[i] < matriz@[k].len(),
    ensures
        r.len() == matriz.len(),
        forall|k: int| 0 <= k < matriz.len() ==> (#[trigger] r@[k])@ == linea_de(matriz@[k]@, posiciones@),
{
    let mut r: Vec<String> = Vec::new();
    let n = matriz.len();
    for k in 0..n
        invariant
            n == matriz.len(),
            r.len() == k,
            forall|j: int| 0 <= j < k ==> (#[trigger] r@[j])@ == linea_de(matriz@[j]@, posiciones@),
            forall|k: int, i: int|
                #![trigger matriz@[k], posiciones@[i]]
                0 <= k < matriz.len() && 0 <= i < posiciones.len() ==> posiciones@[i]
                    < matriz@[k].len(),
    {
        let fila = &matriz[k];
        let mut celdas: Vec<Vec<char>> = Vec::new();
        let m = posiciones.len();
        for i in 0..m
            invariant
                m == posiciones.len(),
                k < n == matriz.len(),
                fila == matriz@[k as int],
                vistas(celdas@) == posiciones@.take(i as int).map_values(|p: usize| fila@[p as int]@),
                forall|k: int, i: int|
                    #![trigger matriz@[k], posiciones@[i]]
                    0 <= k < matriz.len() && 0 <= i < posiciones.len() ==> posiciones@[i]
                        < matriz@[k].len(),
        {
            let p = posiciones[i];
            assert(p < fila.len()) by {
                assert(posiciones@[i as int] < matriz@[k as int].len());
            }
            let c = caracteres(fila[p].as_str());
            let ghost antes = celdas@;
            celdas.push(c);
            assert(vistas(celdas@) =~= vistas(antes).push(c@));
            assert(posiciones@.take(i + 1).map_values(|p: usize| fila@[p as int]@)
                =~= posiciones@.take(i as int).map_values(|p: usize| fila@[p as int]@).push(
                fila@[p as int]@,
            ));
        }
        assert(posiciones@.take(m as int) =~= posiciones@);
        let linea = unir_tramo(&celdas, 0, m, ',');
        assert(vistas(celdas@).subrange(0, m as int) =~= vistas(celdas@));
        r.push(a_cadena(&linea));
    }
    r
}


/// The rows of a sorted result are rows of the input, as many of them.
proof fn lema_ordenada_mismas_filas(
    matriz: Seq<Vec<String>>,
    direccion: Seq<char>,
    pos: int,
    m: Seq<Vec<String>>,
)
    requires
        matriz.len() >= 1,
        matriz_ordenada(matriz, direccion, pos) == Ok::<Seq<Vec<String>>, SqlError>(m),
    ensures
        m.len() == matriz.len(),
        forall|k: int| 0 <= k < m.len() ==> matriz.contains(#[trigger] m[k]),
{
    broadcast use vstd::seq_lib::to_multiset_contains, vstd::seq_lib::to_multiset_len;

    let asc = direccion == clave_asc();
    let resto = matriz.skip(1);
    let o = ordenar_filas(resto, pos, asc);
    ley_ordenar_filas(resto, pos, asc);
    assert(m == seq![matriz[0]] + o);
    assert(o.len() == o.to_multiset().len());
    assert(resto.len() == resto.to_multiset().len());
    assert forall|k: int| 0 <= k < m.len() implies matriz.contains(#[trigger] m[k]) by {
        if k == 0 {
            assert(matriz[0] == m[0]);
        } else {
            assert(m[k] == o[k - 1]);
            assert(o.to_multiset().count(o[k - 1]) > 0);
            assert(resto.contains(o[k - 1]));
            let j = choose|j: int| 0 <= j < resto.len() && resto[j] == o[k - 1];
            assert(matriz[j + 1] == resto[j]);
        }
    }
}

/// `m` is a result that `ordenar_matriz` may return for `matriz` and `ordenamiento` with
/// the given lookup.
pub open spec fn orden_posible<P>(
    m: Seq<Vec<String>>,
    matriz: Seq<Vec<String>>,
    ordenamiento: Seq<String>,
    posicion_en_header: &P,
) -> bool where P: Fn(&String) -> Result<usize, SqlError> {
    exists|c: &String, p: usize|
        {
            &&& c@ == minusculas(ordenamiento[0]@)
            &&& #[trigger] posicion_en_header.ensures((c,), Ok(p))
            &&& matriz_ordenada(matriz, ordenamiento[1]@, p as int) == Ok::<
                Seq<Vec<String>>,
                SqlError,
            >(m)
        }
}

/// `e` is an error that `ordenar_matriz` may return for `matriz` and `ordenamiento` with
/// the given lookup.
pub open spec fn error_de_orden_posible<P>(
    e: SqlError,
    matriz: Seq<Vec<String>>,
    ordenamiento: Seq<String>,
    posicion_en_header: &P,
) -> bool where P: Fn(&String) -> Result<usize, SqlError> {
    ||| exists|c: &String|
        c@ == minusculas(ordenamiento[0]@) && #[trigger] posicion_en_header.ensures(
            (c,),
            Err(e),
        )
    ||| exists|c: &String, p: usize|
        {
            &&& c@ == minusculas(ordenamiento[0]@)
            &&& #[trigger] posicion_en_header.ensures((c,), Ok(p))
            &&& matriz_ordenada(matriz, ordenamiento[1]@, p as int) == Err::<
                Seq<Vec<String>>,
                SqlError,
            >(e)
        }
}

/// `posiciones` are positions that the lookup may give for the columns `nombres`: each
/// holds the name looked up and the position found.
pub open spec fn posiciones_posibles<P>(
    posiciones: Seq<(String, usize)>,
    nombres: Seq<Seq<char>>,
    posicion_en_header: &P,
) -> bool where P: Fn(&String) -> Result<usize, SqlError> {
    &&& posiciones.len() == nombres.len()
    &&& forall|i: int|
        0 <= i < posiciones.len() ==> {
            &&& (#[trigger] posiciones[i]).0@ == nombres[i]
            &&& posicion_en_header.ensures((&posiciones[i].0,), Ok(posiciones[i].1))
        }
}

/// `m` is a result that `ordenar_matriz_por_columna` may return for `matriz`,
/// `ordenamiento` and the sort column `columna`.
pub open spec fn orden_por_columna_posible<P>(
    m: Seq<Vec<String>>,
    matriz: Seq<Vec<String>>,
    ordenamiento: Seq<String>,
    columna: &String,
    posicion_en_header: &P,
) -> bool where P: Fn(&String) -> Result<usize, SqlError> {
    exists|p: usize|
        {
            &&& #[trigger] posicion_en_header.ensures((columna,), Ok(p))
            &&& matriz_ordenada(matriz, ordenamiento[1]@, p as int) == Ok::<
                Seq<Vec<String>>,
                SqlError,
            >(m)
        }
}

/// `e` is an error that `ordenar_matriz_por_columna` may return for `matriz`,
/// `ordenamiento` and the sort column `columna`.
pub open spec fn error_por_columna_posible<P>(
    e: SqlError,
    matriz: Seq<Vec<String>>,
    ordenamiento: Seq<String>,
    columna: &String,
    posicion_en_header: &P,
) -> bool where P: Fn(&String) -> Result<usize, SqlError> {
    ||| posicion_en_header.ensures((columna,), Err(e))
    ||| exists|p: usize|
        {
            &&& #[trigger] posicion_en_header.ensures((columna,), Ok(p))
            &&& matriz_ordenada(matriz, ordenamiento[1]@, p as int) == Err::<
                Seq<Vec<String>>,
                SqlError,
            >(e)
        }
}

/// What the display of a `SELECT` needs once every selected column has been found at the
/// positions `posiciones`: a matrix with a header row, every row holding every selected
/// position, and, when the sort column is found, an ordering with a direction and, for a
/// valid direction and two data rows or more, data rows that hold the sort position.
pub open spec fn demandas_de_lineas<P>(
    matriz: Seq<Vec<String>>,
    ordenamiento: Seq<String>,
    columna: &String,
    posiciones: Seq<(String, usize)>,
    posicion_en_header: &P,
) -> bool where P: Fn(&String) -> Result<usize, SqlError> {
    &&& matriz.len() >= 1
    &&& forall|i: int, k: int|
        #![trigger posiciones[i], matriz[k]]
        0 <= i < posiciones.len() && 0 <= k < matriz.len() ==> posiciones[i].1 < matriz[k].len()
    &&& forall|p: usize|
        #[trigger] posicion_en_header.ensures((columna,), Ok(p)) ==> {
            &&& ordenamiento.len() >= 2
            &&& direccion_valida(ordenamiento[1]@) && matriz.len() >= 3 ==> forall|k: int|
                1 <= k < matriz.len() ==> p < (#[trigger] matriz[k]).len()
        }
}

/// Looks up every selected column, in order; the first error is returned.
fn buscar_posiciones<P>(nombres: &Vec<String>, posicion_en_header: &P) -> (r: Result<
    (Vec<usize>, Ghost<Seq<(String, usize)>>),
    SqlError,
>) where P: Fn(&String) -> Result<usize, SqlError>
    requires
        forall|c: &String| #[trigger] posicion_en_header.requires((c,)),
    ensures
        match r {
            Ok((posiciones, asig)) => {
                &&& posiciones_posibles(asig@, vistas_cadenas(nombres@), posicion_en_header)
                &&& posiciones@ == asig@.map_values(|x: (String, usize)| x.1)
            },
            Err(e) => exists|c: &String|
                vistas_cadenas(nombres@).contains(c@) && #[trigger] posicion_en_header.ensures(
                    (c,),
                    Err(e),
                ),
        },
{
    let ghost vnombres = vistas_cadenas(nombres@);
    let mut posiciones: Vec<usize> = Vec::new();
    let ghost mut asig: Seq<(String, usize)> = Seq::empty();
    let n = nombres.len();
    for i in 0..n
        invariant
            n == nombres.len() == vnombres.len(),
            vistas_cadenas(nombres@) == vnombres,
            forall|c: &String| #[trigger] posicion_en_header.requires((c,)),
            asig.len() == i,
            posiciones@ == asig.map_values(|x: (String, usize)| x.1),
            forall|j: int|
                0 <= j < i ==> {
                    &&& (#[trigger] asig[j]).0@ == vnombres[j]
                    &&& posicion_en_header.ensures((&asig[j].0,), Ok(asig[j].1))
                },
    {
        let p = match posicion_en_header(&nombres[i]) {
            Ok(p) => p,
            Err(e) => {
                assert(nombres@[i as int]@ == vnombres[i as int]);
                assert(vnombres.contains(nombres@[i as int]@));
                return Err(e);
            },
        };
        let ghost previo = asig;
        proof {
            asig = asig.push((nombres@[i as int], p));
        }
        posiciones.push(p);
        assert(posiciones@ =~= asig.map_values(|x: (String, usize)| x.1));
        assert forall|j: int| 0 <= j < i + 1 implies {
            &&& (#[trigger] asig[j]).0@ == vnombres[j]
            &&& posicion_en_header.ensures((&asig[j].0,), Ok(asig[j].1))
        } by {
            if j < i {
                assert(asig[j] == previo[j]);
            } else {
                assert(nombres@[i as int]@ == vnombres[i as int]);
            }
        }
    }
    Ok((posiciones, Ghost(asig)))
}

/// Sorts by the column `columna` and restricts every row to the positions found.
fn ordenar_y_proyectar<P>(
    matriz: Vec<Vec<String>>,
    ordenamiento: Vec<String>,
    columna: &String,
    posiciones: &Vec<usize>,
    asig: Ghost<Seq<(String, usize)>>,
    posicion_en_header: &P,
) -> (r: Result<Vec<String>, SqlError>) where P: Fn(&String) -> Result<usize, SqlError>
    requires
        forall|c: &String| #[trigger] posicion_en_header.requires((c,)),
        posiciones@ == asig@.map_values(|x: (String, usize)| x.1),
        demandas_de_lineas(matriz@, ordenamiento@, columna, asig@, posicion_en_header),
    ensures
        match r {
            Ok(lineas) => exists|m: Seq<Vec<String>>|
                {
                    &&& #[trigger] orden_por_columna_posible(
                        m,
                        matriz@,
                        ordenamiento@,
                        columna,
                        posicion_en_header,
                    )
                    &&& lineas.len() == m.len()
                    &&& forall|k: int|
                        0 <= k < m.len() ==> (#[trigger] lineas@[k])@ == linea_de(
                            m[k]@,
                            posiciones@,
                        )
                },
            Err(e) => error_por_columna_posible(
                e,
                matriz@,
                ordenamiento@,
                columna,
                posicion_en_header,
            ),
        },
{
    let ghost entrada = matriz@;
    let ghost ord = ordenamiento@;
    let ordenada = match ordenar_matriz_por_columna(
        matriz,
        ordenamiento,
        columna,
        posicion_en_header,
    ) {
        Ok(m) => m,
        Err(e) => {
            return Err(e);
        },
    };
    proof {
        let p = choose|p: usize|
            {
                &&& #[trigger] posicion_en_header.ensures((columna,), Ok(p))
                &&& matriz_ordenada(entrada, ord[1]@, p as int) == Ok::<
                    Seq<Vec<String>>,
                    SqlError,
                >(ordenada@)
            };
        lema_ordenada_mismas_filas(entrada, ord[1]@, p as int, ordenada@);
        assert forall|k: int, i: int|
            #![trigger ordenada@[k], posiciones@[i]]
            0 <= k < ordenada.len() && 0 <= i < posiciones.len() implies posiciones@[i]
                < ordenada@[k].len() by {
            let j = choose|j: int| 0 <= j < entrada.len() && entrada[j] == ordenada@[k];
            assert(posiciones@[i] == asig@[i].1);
            assert(asig@[i].1 < entrada[j].len());
        }
    }
    let lineas = proyectar_filas(&ordenada, &posiciones);
    assert(orden_por_columna_posible(ordenada@, entrada, ord, columna, posicion_en_header));
    Ok(lineas)
}

/// The lines that a `SELECT` shows, for the sort column `columna` (the lowercased first
/// word of the ordering): the selected columns (split at commas and trimmed) are looked
/// up with `posicion_en_header`, the result is sorted as `ordenar_matriz_por_columna`
/// does, and every row, the header row first, is restricted to the selected positions
/// and joined by commas. The first error of a lookup or of the sort is returned.
pub fn lineas_de_select_por_columna<P>(
    matriz: Vec<Vec<String>>,
    columnas_selec: String,
    ordenamiento: Vec<String>,
    columna: &String,
    posicion_en_header: &P,
) -> (r: Result<Vec<String>, SqlError>) where P: Fn(&String) -> Result<usize, SqlError>
    requires
        forall|c: &String| #[trigger] posicion_en_header.requires((c,)),
        forall|posiciones: Seq<(String, usize)>|
            #[trigger] posiciones_posibles(
                posiciones,
                nombres_de_columnas(columnas_selec@),
                posicion_en_header,
            ) ==> demandas_de_lineas(
                matriz@,
                ordenamiento@,
                columna,
                posiciones,
                posicion_en_header,
            ),
    ensures
        match r {
            Ok(lineas) => exists|posiciones: Seq<(String, usize)>, m: Seq<Vec<String>>|
                {
                    &&& #[trigger] posiciones_posibles(
                        posiciones,
                        nombres_de_columnas(columnas_selec@),
                        posicion_en_header,
                    )
                    &&& #[trigger] orden_por_columna_posible(
                        m,
                        matriz@,
                        ordenamiento@,
                        columna,
                        posicion_en_header,
                    )
                    &&& lineas.len() == m.len()
                    &&& forall|k: int|
                        0 <= k < m.len() ==> (#[trigger] lineas@[k])@ == linea_de(
                            m[k]@,
                            posiciones.map_values(|x: (String, usize)| x.1),
                        )
                },
            Err(e) => {
                ||| exists|c: &String|
                    nombres_de_columnas(columnas_selec@).contains(c@)
                        && #[trigger] posicion_en_header.ensures((c,), Err(e))
                ||| error_por_columna_posible(
                    e,
                    matriz@,
                    ordenamiento@,
                    columna,
                    posicion_en_header,
                )
            },
        },
{
    let nombres = separar_columnas(columnas_selec.as_str());
    let (posiciones, asig) = match buscar_posiciones(&nombres, posicion_en_header) {
        Ok(encontradas) => encontradas,
        Err(e) => {
            return Err(e);
        },
    };
    assert(posiciones_posibles(asig@, nombres_de_columnas(columnas_selec@), posicion_en_header));
    ordenar_y_proyectar(matriz, ordenamiento, columna, &posiciones, asig, posicion_en_header)
}

/// The lines that a `SELECT` shows: the selected columns (split at commas and trimmed)
/// are looked up with `posicion_en_header`, the result is sorted as `ordenar_matriz`
/// does, and every row, the header row first, is restricted to the selected positions
/// and joined by commas. The first error of a lookup or of the sort is returned.
pub(crate) fn lineas_de_select<P>(
    matriz: Vec<Vec<String>>,
    columnas_selec: String,
    ordenamiento: Vec<String>,
    posicion_en_header: &P,
) -> (r: Result<Vec<String>, SqlError>) where P: Fn(&String) -> Result<usize, SqlError>
    requires
        forall|c: &String| #[trigger] posicion_en_header.requires((c,)),
        forall|posiciones: Seq<(String, usize)>|
            #[trigger] posiciones_posibles(
                posiciones,
                nombres_de_columnas(columnas_selec@),
                posicion_en_header,
            ) ==> {
                &&& ordenamiento.len() >= 1
                &&& forall|c: &String|
                    c@ == minusculas(ordenamiento@[0]@) ==> #[trigger] demandas_de_lineas(
                        matriz@,
                        ordenamiento@,
                        c,
                        posiciones,
                        posicion_en_header,
                    )
            },
    ensures
        match r {
            Ok(lineas) => exists|posiciones: Seq<(String, usize)>, m: Seq<Vec<String>>|
                {
                    &&& #[trigger] posiciones_posibles(
                        posiciones,
                        nombres_de_columnas(columnas_selec@),
                        posicion_en_header,
                    )
                    &&& #[trigger] orden_posible(m, matriz@, ordenamiento@, posicion_en_header)
                    &&& lineas.len() == m.len()
                    &&& forall|k: int|
                        0 <= k < m.len() ==> (#[trigger] lineas@[k])@ == linea_de(
                            m[k]@,
                            posiciones.map_values(|x: (String, usize)| x.1),
                        )
                },
            Err(e) => {
                ||| exists|c: &String|
                    nombres_de_columnas(columnas_selec@).contains(c@)
                        && #[trigger] posicion_en_header.ensures((c,), Err(e))
                ||| error_de_orden_posible(e, matriz@, ordenamiento@, posicion_en_header)
            },
        },
{
    let nombres = separar_columnas(columnas_selec.as_str());
    let (posiciones, asig) = match buscar_posiciones(&nombres, posicion_en_header) {
        Ok(encontradas) => encontradas,
        Err(e) => {
            return Err(e);
        },
    };
    assert(posiciones_posibles(asig@, nombres_de_columnas(columnas_selec@), posicion_en_header));
    let columna = clave_de_orden(&ordenamiento);
    assert(demandas_de_lineas(matriz@, ordenamiento@, &columna, asig@, posicion_en_header));
    let ghost entrada = matriz@;
    let ghost ord = ordenamiento@;
    let r = ordenar_y_proyectar(matriz, ordenamiento, &columna, &posiciones, asig, posicion_en_header);
    proof {
        if r is Ok {
            let lineas = r->Ok_0;
            {
                let m = choose|m: Seq<Vec<String>>|
                    {
                        &&& #[trigger] orden_por_columna_posible(
                            m,
                            entrada,
                            ord,
                            &columna,
                            posicion_en_header,
                        )
                        &&& lineas.len() == m.len()
                        &&& forall|k: int|
                            0 <= k < m.len() ==> (#[trigger] lineas@[k])@ == linea_de(
                                m[k]@,
                                posiciones@,
                            )
                    };
                assert(orden_posible(m, entrada, ord, posicion_en_header));
            }
        } else {
            let e = r->Err_0;
            assert(error_de_orden_posible(e, entrada, ord, posicion_en_header));
        }
    }
    r
}

/// The rows whose key at `pos` is `k`.
pub open spec fn con_clave(s: Seq<Vec<String>>, pos: int, k: Seq<char>) -> Seq<Vec<String>> {
    s.filter(|f: Vec<String>| clave(f, pos) == k)
}

/// In rows that are in order, what follows the first row that may not stay before `x`
/// has a key different from that of `x`.
proof fn lema_despues_distinta_clave(s: Seq<Vec<String>>, x: Vec<String>, pos: int, asc: bool, j: int)
    requires
        filas_en_orden(s, pos, asc),
        0 <= j < s.len(),
        !va_antes(s[j], x, pos, asc),
    ensures
        forall|i: int| j <= i < s.len() ==> clave(#[trigger] s[i], pos) != clave(x, pos),
{
    assert forall|i: int| j <= i < s.len() implies clave(#[trigger] s[i], pos) != clave(x, pos) by {
        lema_precede_total(clave(x, pos), clave(x, pos));
        if i > j {
            assert(va_antes(s[j], s[i], pos, asc));
            if clave(s[i], pos) == clave(x, pos) {
                assert(va_antes(s[j], x, pos, asc));
            }
        }
    }
}

/// Rows none of which has key `k` keep none of them.
proof fn lema_con_clave_vacio(s: Seq<Vec<String>>, pos: int, k: Seq<char>)
    requires
        forall|i: int| 0 <= i < s.len() ==> clave(#[trigger] s[i], pos) != k,
    ensures
        con_clave(s, pos, k) == Seq::<Vec<String>>::empty(),
    decreases s.len(),
{
    reveal(Seq::filter);
    if s.len() > 0 {
        let d = s.drop_last();
        assert forall|i: int| 0 <= i < d.len() implies clave(#[trigger] d[i], pos) != k by {
            assert(d[i] == s[i]);
        }
        lema_con_clave_vacio(d, pos, k);
    }
}

/// Inserting `x` into rows in order adds `x` after the rows with its key.
proof fn lema_insertar_con_clave(s: Seq<Vec<String>>, x: Vec<String>, pos: int, asc: bool, k: Seq<char>)
    requires
        filas_en_orden(s, pos, asc),
    ensures
        con_clave(insertar(s, x, pos, asc), pos, k) == if clave(x, pos) == k {
            con_clave(s, pos, k).push(x)
        } else {
            con_clave(s, pos, k)
        },
{
    reveal(Seq::filter);
    let f = |g: Vec<String>| clave(g, pos) == k;
    let j = lema_insertar_indice(s, x, pos, asc);
    let a = s.take(j);
    let b = s.skip(j);
    assert(s.insert(j, x) =~= a + seq![x] + b);
    assert(s =~= a + b);
    Seq::filter_distributes_over_add(a + seq![x], b, f);
    Seq::filter_distributes_over_add(a, seq![x], f);
    Seq::filter_distributes_over_add(a, b, f);
    assert(seq![x].drop_last() =~= Seq::<Vec<String>>::empty());
    assert(Seq::<Vec<String>>::empty().filter(f) =~= Seq::<Vec<String>>::empty());
    assert(Seq::<Vec<String>>::empty().push(x) =~= seq![x]);
    assert(seq![x].last() == x);
    assert(seq![x].filter(f) == if f(x) { seq![x] } else { Seq::<Vec<String>>::empty() });
    if clave(x, pos) == k && j < s.len() {
        lema_despues_distinta_clave(s, x, pos, asc, j);
        assert forall|i: int| 0 <= i < b.len() implies clave(#[trigger] b[i], pos) != k by {
            assert(b[i] == s[i + j]);
        }
        lema_con_clave_vacio(b, pos, k);
        assert(a.filter(f) + seq![x] =~= a.filter(f).push(x));
        assert(a.filter(f).push(x) + Seq::<Vec<String>>::empty() =~= a.filter(f).push(x));
        assert(a.filter(f) + Seq::<Vec<String>>::empty() =~= a.filter(f));
    } else if clave(x, pos) == k {
        assert(b =~= Seq::<Vec<String>>::empty());
        assert(b.filter(f) =~= Seq::<Vec<String>>::empty());
        assert(a.filter(f) + seq![x] + Seq::<Vec<String>>::empty() =~= a.filter(f).push(x));
        assert(a.filter(f) + Seq::<Vec<String>>::empty() =~= a.filter(f));
    } else {
        assert(a.filter(f) + Seq::<Vec<String>>::empty() =~= a.filter(f));
    }
}


/// The sort is stable: for every key, the rows with that key come out in the order in
/// which they came in.
pub proof fn ley_ordenar_filas_estable(s: Seq<Vec<String>>, pos: int, asc: bool, k: Seq<char>)
    ensures
        con_clave(ordenar_filas(s, pos, asc), pos, k) == con_clave(s, pos, k),
    decreases s.len(),
{
    reveal(Seq::filter);
    if s.len() == 0 {
    } else {
        let previo = s.drop_last();
        ley_ordenar_filas_estable(previo, pos, asc, k);
        ley_ordenar_filas(previo, pos, asc);
        lema_insertar_con_clave(ordenar_filas(previo, pos, asc), s.last(), pos, asc, k);
    }
}


/// With `*`, a `SELECT` shows exactly the header's columns, in the header's order: when no
/// column name holds a comma or surrounding whitespace, the names read back from the
/// expanded `*` are the header itself.
pub proof fn ley_asterisco_muestra_el_header(h: Seq<Seq<char>>)
    requires
        h.len() >= 1,
        forall|i: int| 0 <= i < h.len() ==> !(#[trigger] h[i]).contains(','),
        forall|i: int| 0 <= i < h.len() ==> recortar(#[trigger] h[i]) == h[i],
    ensures
        nombres_de_columnas(columnas_mostradas(seq!['*'], h)) == h,
{
    lema_partir_unir_comas(h);
    assert(nombres_de_columnas(columnas_mostradas(seq!['*'], h)) =~= h);
}

/// A printed line holds the selected cells in the order of the positions: when no cell
/// holds a comma, splitting the line at each comma gives back the cell at each selected
/// position.
pub proof fn ley_linea_da_las_celdas(fila: Seq<String>, posiciones: Seq<usize>)
    requires
        posiciones.len() >= 1,
        forall|i: int| 0 <= i < posiciones.len() ==> #[trigger] posiciones[i] < fila.len(),
        forall|j: int| 0 <= j < fila.len() ==> !(#[trigger] fila[j])@.contains(','),
    ensures
        partir(linea_de(fila, posiciones), seq![',']).len() == posiciones.len(),
        forall|i: int|
            0 <= i < posiciones.len() ==> partir(linea_de(fila, posiciones), seq![','])[i]
                == (#[trigger] fila[posiciones[i] as int])@,
{
    let h = posiciones.map_values(|i: usize| fila[i as int]@);
    assert forall|i: int| 0 <= i < h.len() implies !(#[trigger] h[i]).contains(',') by {
        assert(posiciones[i] < fila.len());
        assert(!fila[posiciones[i] as int]@.contains(','));
    }
    lema_partir_unir_comas(h);
}

} // verus!
