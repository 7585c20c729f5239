use vstd::prelude::*;
use crate::errors::SqlError;
use crate::texto::{
    lema_partir_no_vacio,
    a_cadena, a_cadenas, a_caracteres, buscar, caracteres, contiene, contiene_patron, copiar_tramo,
    fichas, lema_contiene_parte, lema_fichas_aparecen, lema_posicion, lema_primera_parte, palabras,
    partir, partir_por, posicion, quitar, quitar_patron, recortar, recortar_espacios,
    recortar_final, recortar_final_de, recortar_parentesis, recortar_parentesis_de, reemplazar,
    reemplazar_patron, trocear, unir, unir_tramo, vistas, vistas_cadenas, aislado, de_palabra,
    es_espacio, lema_fichas_conservan, lema_partir_conserva, lema_quitar_conserva,
    lema_quitar_elimina, lema_recortar_conserva, lema_partir_unir_comas, lema_quitar_ausente,
    lema_quitar_concat, lema_unir_conserva, lema_unir_extremos, recortar_fin, recortar_inicio,
    empieza_con, lema_partir_primera, lema_partir_sin_patron, lema_unir_concat,
    lema_contiene_por_espacio, lema_no_contiene_concat, lema_no_contiene_por_inicial,
    lema_no_contiene_vacio, lema_quitar_sin_patron, lema_recortar_sin_espacios, lema_unir_sin_patron,
    lema_reemplazar_sin_patron, sin_parentesis_inicio, sin_parentesis_fin, es_parentesis,
};
use crate::leyes::{
    cuenta_caracter, cuenta_fichas, lema_cuenta_quitar, lema_cuenta_recortar_final,
    lema_filtro_doble, lema_quitar_es_filtro, ley_parentesis_sueltos, no_espacio, ficha_valida, ley_fichas_cubren_la_entrada, ley_separador_corta_fichas, ley_unir_y_trocear,
};

verus! {

/// The keyword `VALUES`.
pub open spec fn clave_values() -> Seq<char> {
    seq!['V', 'A', 'L', 'U', 'E', 'S']
}

/// The keyword `INTO`.
pub open spec fn clave_into() -> Seq<char> {
    seq!['I', 'N', 'T', 'O']
}

/// The keyword `WHERE`.
pub open spec fn clave_where() -> Seq<char> {
    seq!['W', 'H', 'E', 'R', 'E']
}

/// The keyword `FROM`.
pub open spec fn clave_from() -> Seq<char> {
    seq!['F', 'R', 'O', 'M']
}

/// The keyword `SET`.
pub open spec fn clave_set() -> Seq<char> {
    seq!['S', 'E', 'T']
}

/// The keyword `UPDATE`.
pub open spec fn clave_update() -> Seq<char> {
    seq!['U', 'P', 'D', 'A', 'T', 'E']
}

/// The keyword `DELETE`.
pub open spec fn clave_delete() -> Seq<char> {
    seq!['D', 'E', 'L', 'E', 'T', 'E']
}

/// The keyword `SELECT`.
pub open spec fn clave_select() -> Seq<char> {
    seq!['S', 'E', 'L', 'E', 'C', 'T']
}

/// The keyword `ORDER`.
pub open spec fn clave_order() -> Seq<char> {
    seq!['O', 'R', 'D', 'E', 'R']
}

/// The keyword `BY`.
pub open spec fn clave_by() -> Seq<char> {
    seq!['B', 'Y']
}

/// The phrase `ORDER BY`.
pub open spec fn clave_order_by() -> Seq<char> {
    seq!['O', 'R', 'D', 'E', 'R', ' ', 'B', 'Y']
}

/// True when the token is the closing parenthesis `)`, and false otherwise.
pub fn parentesis_izquierdo(token: &str) -> (r: bool)
    ensures
        r == (token@ == seq![')']),
{
    if token.unicode_len() != 1 {
        return false;
    }
    let c = token.get_char(0);
    proof {
        if c == ')' {
            assert(token@ =~= seq![')']);
        }
    }
    c == ')'
}

/// False when the token is the closing parenthesis `)`, and true for any other token.
pub fn partentesis_derecho(token: &str) -> (r: bool)
    ensures
        r == (token@ != seq![')']),
{
    if token.unicode_len() != 1 {
        proof {
            if token@ == seq![')'] {
                assert(token@.len() == 1);
            }
        }
        return true;
    }
    let c = token.get_char(0);
    proof {
        if c == ')' {
            assert(token@ =~= seq![')']);
        }
    }
    c != ')'
}

/// Splits the conditions of a query into tokens: words are separated by whitespace,
/// and every parenthesis is a token of its own.
pub fn separar_condiciones(condiciones: &str) -> (r: Vec<String>)
    ensures
        vistas_cadenas(r@) == fichas(condiciones@, true),
{
    let s = caracteres(condiciones);
    let t = trocear(&s, true);
    a_cadenas(&t)
}

/// The first whitespace-separated word of the query; the empty string when the query has
/// no word.
pub fn obtener_primera_palabra(cadena: &str) -> (r: Result<String, SqlError>)
    ensures
        r is Ok,
        palabras(cadena@).len() > 0 ==> r->Ok_0@ == palabras(cadena@)[0],
        palabras(cadena@).len() == 0 ==> r->Ok_0@ == Seq::<char>::empty(),
{
    let s = caracteres(cadena);
    let t = trocear(&s, false);
    if t.len() > 0 {
        Ok(a_cadena(&t[0]))
    } else {
        Ok(String::new())
    }
}

/// Index of the word `VALUES` in an `INSERT` query.
pub open spec fn posicion_values(q: Seq<char>) -> int {
    posicion(palabras(q), clave_values())
}

/// An `INSERT` query is accepted when it has the word `VALUES` and the words before it,
/// joined by spaces, contain `INTO`.
pub open spec fn insert_valido(q: Seq<char>) -> bool {
    let ws = palabras(q);
    &&& ws.contains(clave_values())
    &&& contiene(unir(ws.take(posicion_values(q)), seq![' ']), clave_into())
}

/// The values of an `INSERT`: the words after `VALUES` joined by spaces, without
/// trailing `;`, trimmed, then without spaces and without quotes.
pub open spec fn valores_insert(q: Seq<char>) -> Seq<char> {
    let ws = palabras(q);
    let unidos = unir(ws.skip(posicion_values(q) + 1), seq![' ']);
    quitar(quitar(recortar(recortar_final(unidos, ';')), seq![' ']), seq!['\''])
}

/// The columns of an `INSERT`: the words between the table name and `VALUES` joined by
/// commas, without parentheses, trimmed, then split at each comma.
pub open spec fn columnas_insert(q: Seq<char>) -> Seq<Seq<char>> {
    let ws = palabras(q);
    let unidos = unir(ws.subrange(3, posicion_values(q)), seq![',']);
    partir(recortar(quitar(quitar(unidos, seq!['(']), seq![')'])), seq![','])
}

/// Splits an `INSERT INTO tabla columnas VALUES valores` query into the table name, the
/// values and the columns.
pub fn separar_datos(consulta_sql: &str) -> (r: Result<(String, String, Vec<String>), SqlError>)
    requires
        insert_valido(consulta_sql@) ==> posicion_values(consulta_sql@) >= 3,
    ensures
        match r {
            Ok((nombre, valores, columnas)) => {
                &&& insert_valido(consulta_sql@)
                &&& nombre@ == palabras(consulta_sql@)[2]
                &&& valores@ == valores_insert(consulta_sql@)
                &&& vistas_cadenas(columnas@) == columnas_insert(consulta_sql@)
            },
            Err(e) => !insert_valido(consulta_sql@) && e == SqlError::InvalidSyntax,
        },
{
    let s = caracteres(consulta_sql);
    let ws = trocear(&s, false);
    let ghost q = consulta_sql@;
    let values = vec!['V', 'A', 'L', 'U', 'E', 'S'];
    assert(values@ =~= clave_values());
    let pos = buscar(&ws, &values);
    proof {
        lema_posicion(palabras(q), clave_values());
    }
    if pos == ws.len() {
        return Err(SqlError::InvalidSyntax);
    }
    let antes = unir_tramo(&ws, 0, pos, ' ');
    let into = vec!['I', 'N', 'T', 'O'];
    assert(into@ =~= clave_into());
    assert(vistas(ws@).subrange(0, pos as int) =~= palabras(q).take(pos as int));
    if !contiene_patron(&antes, &into) {
        return Err(SqlError::InvalidSyntax);
    }
    let nombre = a_cadena(&ws[2]);
    let despues = unir_tramo(&ws, pos + 1, ws.len(), ' ');
    assert(vistas(ws@).subrange(pos + 1, ws.len() as int) =~= palabras(q).skip(pos + 1));
    let sin_final = recortar_final_de(&despues, ';');
    let recortados = recortar_espacios(&sin_final);
    let espacio = vec![' '];
    let comilla = vec!['\''];
    assert(espacio@ =~= seq![' ']);
    assert(comilla@ =~= seq!['\'']);
    let sin_espacios = quitar_patron(&recortados, &espacio);
    let valores = quitar_patron(&sin_espacios, &comilla);
    let columnas_unidas = unir_tramo(&ws, 3, pos, ',');
    let abre = vec!['('];
    let cierra = vec![')'];
    let coma = vec![','];
    assert(abre@ =~= seq!['(']);
    assert(cierra@ =~= seq![')']);
    assert(coma@ =~= seq![',']);
    let sin_abre = quitar_patron(&columnas_unidas, &abre);
    let sin_cierra = quitar_patron(&sin_abre, &cierra);
    let columnas_recortadas = recortar_espacios(&sin_cierra);
    let columnas = partir_por(&columnas_recortadas, &coma);
    Ok((nombre, a_cadena(&valores), a_cadenas(&columnas)))
}


/// The part of a query before its first `WHERE`.
pub open spec fn antes_de_where(q: Seq<char>) -> Seq<char> {
    partir(q, clave_where())[0]
}

/// The part of a query between its first and its second `WHERE`.
pub open spec fn despues_de_where(q: Seq<char>) -> Seq<char> {
    partir(q, clave_where())[1]
}

/// The conditions after `WHERE`: without trailing `;`, without quotes, split into tokens.
pub open spec fn condiciones_where(q: Seq<char>) -> Seq<Seq<char>> {
    fichas(quitar(recortar_final(despues_de_where(q), ';'), seq!['\'']), true)
}

/// A `DELETE` or `SELECT` query is accepted when it has the words `WHERE` and `FROM`.
pub open spec fn where_y_from(q: Seq<char>) -> bool {
    palabras(q).contains(clave_where()) && palabras(q).contains(clave_from())
}

/// The table of a `DELETE`: the part before `WHERE` without `DELETE` and `FROM`, trimmed,
/// then without parentheses and spaces.
pub open spec fn nombre_delete(q: Seq<char>) -> Seq<char> {
    let sin_claves = quitar(quitar(antes_de_where(q), clave_delete()), clave_from());
    quitar(quitar(quitar(recortar(sin_claves), seq!['(']), seq![')']), seq![' '])
}

/// A word of the query occurs in it, so a keyword that is a word splits the query.
proof fn lema_palabra_parte(q: Seq<char>, w: Seq<char>)
    requires
        w.len() > 0,
        palabras(q).contains(w),
    ensures
        partir(q, w).len() >= 2,
{
    lema_fichas_aparecen(q, false);
    let k = choose|k: int| 0 <= k < palabras(q).len() && palabras(q)[k] == w;
    assert(contiene(q, palabras(q)[k]));
    lema_contiene_parte(q, w);
}

/// The characters of the keyword `WHERE`.
fn patron_where() -> (r: Vec<char>)
    ensures
        r@ == clave_where(),
{
    let r = vec!['W', 'H', 'E', 'R', 'E'];
    assert(r@ =~= clave_where());
    r
}

/// The characters of the keyword `FROM`.
fn patron_from() -> (r: Vec<char>)
    ensures
        r@ == clave_from(),
{
    let r = vec!['F', 'R', 'O', 'M'];
    assert(r@ =~= clave_from());
    r
}

/// A vector holding the single character `c`.
fn patron_de(c: char) -> (r: Vec<char>)
    ensures
        r@ == seq![c],
{
    let r = vec![c];
    assert(r@ =~= seq![c]);
    r
}

/// The conditions after the first `WHERE` of a query that has that word.
fn condiciones_tras_where(s: &Vec<char>, partes: &Vec<Vec<char>>) -> (r: Vec<String>)
    requires
        partes.len() >= 2,
        vistas(partes@) == partir(s@, clave_where()),
    ensures
        vistas_cadenas(r@) == condiciones_where(s@),
{
    let sin_final = recortar_final_de(&partes[1], ';');
    let sin_comillas = quitar_patron(&sin_final, &patron_de('\''));
    let t = trocear(&sin_comillas, true);
    a_cadenas(&t)
}

/// Splits a `DELETE FROM tabla WHERE condiciones` query into the table name and the
/// tokens of the conditions.
pub fn separar_datos_delete(consulta_sql: &str) -> (r: Result<(String, Vec<String>), SqlError>)
    ensures
        match r {
            Ok((nombre, condiciones)) => {
                &&& where_y_from(consulta_sql@)
                &&& nombre@ == nombre_delete(consulta_sql@)
                &&& vistas_cadenas(condiciones@) == condiciones_where(consulta_sql@)
            },
            Err(e) => !where_y_from(consulta_sql@) && e == SqlError::InvalidSyntax,
        },
{
    let s = caracteres(consulta_sql);
    let ws = trocear(&s, false);
    let pat_where = patron_where();
    let pat_from = patron_from();
    let pos_where = buscar(&ws, &pat_where);
    let pos_from = buscar(&ws, &pat_from);
    proof {
        lema_posicion(palabras(s@), clave_where());
        lema_posicion(palabras(s@), clave_from());
    }
    if pos_where == ws.len() || pos_from == ws.len() {
        return Err(SqlError::InvalidSyntax);
    }
    proof {
        lema_palabra_parte(s@, clave_where());
    }
    let partes = partir_por(&s, &pat_where);
    let delete = vec!['D', 'E', 'L', 'E', 'T', 'E'];
    assert(delete@ =~= clave_delete());
    let sin_delete = quitar_patron(&partes[0], &delete);
    let sin_from = quitar_patron(&sin_delete, &pat_from);
    let recortado = recortar_espacios(&sin_from);
    let sin_abre = quitar_patron(&recortado, &patron_de('('));
    let sin_cierra = quitar_patron(&sin_abre, &patron_de(')'));
    let nombre = quitar_patron(&sin_cierra, &patron_de(' '));
    let condiciones = condiciones_tras_where(&s, &partes);
    Ok((a_cadena(&nombre), condiciones))
}

/// The head of a `SELECT`: the part before `WHERE`, trimmed, then without `SELECT`,
/// quotes, parentheses and spaces.
pub open spec fn cabecera_select(q: Seq<char>) -> Seq<char> {
    let sin_select = quitar(recortar(antes_de_where(q)), clave_select());
    quitar(
        quitar(quitar(quitar(sin_select, seq!['\'']), seq!['(']), seq![')']),
        seq![' '],
    )
}

/// The table of a `SELECT`: what follows the first `FROM` of the head, up to a second
/// `FROM`, trimmed and without spaces.
pub open spec fn nombre_select(q: Seq<char>) -> Seq<char> {
    quitar(recortar(partir(cabecera_select(q), clave_from())[1]), seq![' '])
}

/// The columns of a `SELECT`: what precedes `FROM` in the head, trimmed and without
/// spaces and parentheses.
pub open spec fn columnas_select(q: Seq<char>) -> Seq<char> {
    let antes = recortar(partir(cabecera_select(q), clave_from())[0]);
    quitar(quitar(quitar(antes, seq![' ']), seq!['(']), seq![')'])
}

/// Splits a `SELECT columnas FROM tabla WHERE condiciones` query into the table name,
/// the columns and the tokens of the conditions.
pub fn separar_datos_select(consulta_sql: &str) -> (r: Result<(String, String, Vec<String>), SqlError>)
    requires
        where_y_from(consulta_sql@) ==> partir(cabecera_select(consulta_sql@), clave_from()).len()
            >= 2,
    ensures
        match r {
            Ok((nombre, columnas, condiciones)) => {
                &&& where_y_from(consulta_sql@)
                &&& nombre@ == nombre_select(consulta_sql@)
                &&& columnas@ == columnas_select(consulta_sql@)
                &&& vistas_cadenas(condiciones@) == condiciones_where(consulta_sql@)
            },
            Err(e) => !where_y_from(consulta_sql@) && e == SqlError::InvalidSyntax,
        },
{
    let s = caracteres(consulta_sql);
    let ws = trocear(&s, false);
    let pat_where = patron_where();
    let pat_from = patron_from();
    let pos_where = buscar(&ws, &pat_where);
    proof {
        lema_posicion(palabras(s@), clave_where());
        lema_posicion(palabras(s@), clave_from());
    }
    if pos_where == ws.len() {
        return Err(SqlError::InvalidSyntax);
    }
    let pos_from = buscar(&ws, &pat_from);
    if pos_from == ws.len() {
        return Err(SqlError::InvalidSyntax);
    }
    proof {
        lema_palabra_parte(s@, clave_where());
    }
    let partes = partir_por(&s, &pat_where);
    let recortado = recortar_espacios(&partes[0]);
    let select = vec!['S', 'E', 'L', 'E', 'C', 'T'];
    assert(select@ =~= clave_select());
    let sin_select = quitar_patron(&recortado, &select);
    let sin_comillas = quitar_patron(&sin_select, &patron_de('\''));
    let sin_abre = quitar_patron(&sin_comillas, &patron_de('('));
    let sin_cierra = quitar_patron(&sin_abre, &patron_de(')'));
    let cabecera = quitar_patron(&sin_cierra, &patron_de(' '));
    let trozos = partir_por(&cabecera, &pat_from);
    let nombre = quitar_patron(&recortar_espacios(&trozos[1]), &patron_de(' '));
    let col_recortadas = recortar_espacios(&trozos[0]);
    let col_sin_espacios = quitar_patron(&col_recortadas, &patron_de(' '));
    let col_sin_abre = quitar_patron(&col_sin_espacios, &patron_de('('));
    let columnas = quitar_patron(&col_sin_abre, &patron_de(')'));
    let condiciones = condiciones_tras_where(&s, &partes);
    Ok((a_cadena(&nombre), a_cadena(&columnas), condiciones))
}


/// The conditions of a query joined with spaces.
pub open spec fn condiciones_unidas(condiciones: Seq<Seq<char>>) -> Seq<char> {
    unir(condiciones, seq![' '])
}

/// Conditions with an ordering are accepted when, joined, they have the words `ORDER`
/// and `BY`.
pub open spec fn tiene_order_by(condiciones: Seq<Seq<char>>) -> bool {
    let ws = palabras(condiciones_unidas(condiciones));
    ws.contains(clave_order()) && ws.contains(clave_by())
}

/// Conditions with the word `ORDER` but without the word `BY` are a syntax error.
pub open spec fn orden_incompleto(condiciones: Seq<Seq<char>>) -> bool {
    let ws = palabras(condiciones_unidas(condiciones));
    ws.contains(clave_order()) && !ws.contains(clave_by())
}

/// Separates the ordering from the conditions of a `SELECT`. Without the word `ORDER`
/// the conditions come back unchanged with an empty ordering. Otherwise the conditions,
/// joined by spaces, are split at the first `ORDER BY`: what precedes it is split into
/// condition tokens and what follows it into words; without the word `BY` this is a
/// syntax error.
pub fn separar_order(condiciones: Vec<String>) -> (r: Result<(Vec<String>, Vec<String>), SqlError>)
    requires
        tiene_order_by(vistas_cadenas(condiciones@)) ==> partir(
            condiciones_unidas(vistas_cadenas(condiciones@)),
            clave_order_by(),
        ).len() >= 2,
    ensures
        match r {
            Ok((condiciones_sin_orden, ordenamiento)) => {
                let unidas = condiciones_unidas(vistas_cadenas(condiciones@));
                let partes = partir(unidas, clave_order_by());
                &&& !orden_incompleto(vistas_cadenas(condiciones@))
                &&& !palabras(unidas).contains(clave_order()) ==> {
                    &&& condiciones_sin_orden@ == condiciones@
                    &&& ordenamiento@.len() == 0
                }
                &&& palabras(unidas).contains(clave_order()) ==> {
                    &&& vistas_cadenas(condiciones_sin_orden@) == fichas(partes[0], true)
                    &&& vistas_cadenas(ordenamiento@) == palabras(partes[1])
                }
            },
            Err(e) => orden_incompleto(vistas_cadenas(condiciones@)) && e == SqlError::InvalidSyntax,
        },
{
    let piezas = a_caracteres(&condiciones);
    let unidas = unir_tramo(&piezas, 0, piezas.len(), ' ');
    assert(vistas(piezas@).subrange(0, piezas.len() as int) =~= vistas(piezas@));
    let ws = trocear(&unidas, false);
    let order = vec!['O', 'R', 'D', 'E', 'R'];
    let by = vec!['B', 'Y'];
    assert(order@ =~= clave_order());
    assert(by@ =~= clave_by());
    let pos_order = buscar(&ws, &order);
    let pos_by = buscar(&ws, &by);
    proof {
        lema_posicion(palabras(unidas@), clave_order());
        lema_posicion(palabras(unidas@), clave_by());
    }
    if pos_order == ws.len() {
        return Ok((condiciones, Vec::new()));
    }
    if pos_by == ws.len() {
        return Err(SqlError::InvalidSyntax);
    }
    let order_by = vec!['O', 'R', 'D', 'E', 'R', ' ', 'B', 'Y'];
    assert(order_by@ =~= clave_order_by());
    let partes = partir_por(&unidas, &order_by);
    let ordenamiento = trocear(&partes[1], false);
    let resto = trocear(&partes[0], true);
    Ok((a_cadenas(&resto), a_cadenas(&ordenamiento)))
}

/// The part of `s` before the first occurrence of `p` and the part after it, when `p`
/// occurs, as `str::split_once` gives them.
pub open spec fn partir_una_vez(s: Seq<char>, p: Seq<char>) -> Option<(Seq<char>, Seq<char>)> {
    let partes = partir(s, p);
    if partes.len() >= 2 {
        Some((partes[0], s.skip((partes[0].len() + p.len()) as int)))
    } else {
        None
    }
}

/// The part of a query between its first and its second `SET`.
pub open spec fn tras_set(q: Seq<char>) -> Seq<char> {
    partir(q, clave_set())[1]
}

/// The table of an `UPDATE`: the part before `SET`, trimmed, without `UPDATE`, quotes
/// and spaces.
pub open spec fn nombre_update(q: Seq<char>) -> Seq<char> {
    let antes = recortar(partir(q, clave_set())[0]);
    quitar(quitar(quitar(antes, clave_update()), seq!['\'']), seq![' '])
}

/// What follows `SET` in an `UPDATE`, trimmed and without trailing `;`.
pub open spec fn valores_update(q: Seq<char>) -> Seq<char> {
    recortar_final(recortar(tras_set(q)), ';')
}

/// An `UPDATE` query is accepted when it has the words `SET` and `WHERE` and the text
/// after `SET` contains `WHERE`.
pub open spec fn update_valido(q: Seq<char>) -> bool {
    &&& palabras(q).contains(clave_set())
    &&& palabras(q).contains(clave_where())
    &&& partir_una_vez(valores_update(q), clave_where()) is Some
}

/// The assignments of an `UPDATE`: the words before `WHERE`, each without quotes.
pub open spec fn campos_update(q: Seq<char>) -> Seq<Seq<char>> {
    let campos = partir_una_vez(valores_update(q), clave_where()).unwrap().0;
    palabras(campos).map_values(|w: Seq<char>| quitar(w, seq!['\'']))
}

/// The condition tokens of an `UPDATE`: the tokens after `WHERE`.
pub open spec fn condiciones_update(q: Seq<char>) -> Seq<Seq<char>> {
    fichas(partir_una_vez(valores_update(q), clave_where()).unwrap().1, true)
}

/// Splits an `UPDATE tabla SET campos WHERE condiciones` query into the table name, the
/// assignment words and the tokens of the conditions.
pub fn separar_datos_update(consulta_sql: &str) -> (r: Result<
    (String, Vec<String>, Vec<String>),
    SqlError,
>)
    ensures
        match r {
            Ok((nombre, campos, condiciones)) => {
                &&& update_valido(consulta_sql@)
                &&& nombre@ == nombre_update(consulta_sql@)
                &&& vistas_cadenas(campos@) == campos_update(consulta_sql@)
                &&& vistas_cadenas(condiciones@) == condiciones_update(consulta_sql@)
            },
            Err(e) => !update_valido(consulta_sql@) && e == SqlError::InvalidSyntax,
        },
{
    let s = caracteres(consulta_sql);
    let ws = trocear(&s, false);
    let set = vec!['S', 'E', 'T'];
    assert(set@ =~= clave_set());
    let pos_set = buscar(&ws, &set);
    proof {
        lema_posicion(palabras(s@), clave_set());
        lema_posicion(palabras(s@), clave_where());
    }
    if pos_set == ws.len() {
        return Err(SqlError::InvalidSyntax);
    }
    proof {
        lema_palabra_parte(s@, clave_set());
    }
    let partes = partir_por(&s, &set);
    let antes = recortar_espacios(&partes[0]);
    let update = vec!['U', 'P', 'D', 'A', 'T', 'E'];
    assert(update@ =~= clave_update());
    let sin_update = quitar_patron(&antes, &update);
    let sin_comillas = quitar_patron(&sin_update, &patron_de('\''));
    let nombre = quitar_patron(&sin_comillas, &patron_de(' '));
    let valores = recortar_final_de(&recortar_espacios(&partes[1]), ';');
    let pat_where = patron_where();
    let pos_where = buscar(&ws, &pat_where);
    if pos_where == ws.len() {
        return Err(SqlError::InvalidSyntax);
    }
    let cortes = partir_por(&valores, &pat_where);
    if cortes.len() < 2 {
        return Err(SqlError::InvalidSyntax);
    }
    proof {
        lema_primera_parte(valores@, clave_where());
    }
    let campos = &cortes[0];
    let clave = copiar_tramo(&valores, campos.len() + 5, valores.len());
    let palabras_campos = trocear(campos, false);
    let mut set_campos: Vec<String> = Vec::new();
    let ghost objetivo = palabras(campos@).map_values(|w: Seq<char>| quitar(w, seq!['\'']));
    let m = palabras_campos.len();
    for i in 0..m
        invariant
            m == palabras_campos.len(),
            vistas(palabras_campos@) == palabras(campos@),
            objetivo == palabras(campos@).map_values(|w: Seq<char>| quitar(w, seq!['\''])),
            vistas_cadenas(set_campos@) == objetivo.take(i as int),
    {
        let limpia = quitar_patron(&palabras_campos[i], &patron_de('\''));
        let ghost antes_campos = set_campos@;
        set_campos.push(a_cadena(&limpia));
        assert(vistas_cadenas(set_campos@) =~= vistas_cadenas(antes_campos).push(limpia@));
        assert(objetivo.take(i + 1) =~= objetivo.take(i as int).push(objetivo[i as int]));
    }
    assert(objetivo.take(m as int) =~= objetivo);
    let condiciones = a_cadenas(&trocear(&clave, true));
    Ok((a_cadena(&nombre), set_campos, condiciones))
}


/// The rows of the values of a multi-row `INSERT`: `)(` is read as `),(`, the
/// parentheses at both ends are dropped, the text is split at each `),(` and each row at
/// each comma.
pub open spec fn filas_de_valores(valores: Seq<char>) -> Seq<Seq<Seq<char>>> {
    let unidos = reemplazar(valores, seq![')', '('], seq![')', ',', '(']);
    partir(recortar_parentesis(unidos), seq![')', ',', '(']).map_values(
        |fila: Seq<char>| partir(fila, seq![',']),
    )
}

/// The cell at position `p` of a row after the assignments `asig`, in order, each an
/// element, the position found for its column and the value that was checked: the value
/// of the last assignment to `p`, or empty.
pub open spec fn celda(asig: Seq<(String, usize, String)>, p: int) -> Seq<char>
    decreases asig.len(),
{
    if asig.len() == 0 {
        seq![]
    } else if asig.last().1 == p {
        asig.last().2@
    } else {
        celda(asig.drop_last(), p)
    }
}

/// A row of `n` cells after the assignments `asig`.
pub open spec fn armar_fila(n: int, asig: Seq<(String, usize, String)>) -> Seq<Seq<char>> {
    Seq::new(n as nat, |p: int| celda(asig, p))
}

/// How many elements of a row are placed: those that have both a header column and a
/// named column.
pub open spec fn limite_fila(n_header: int, n_columnas: int, n_elementos: int) -> int {
    if n_header <= n_columnas && n_header <= n_elementos {
        n_header
    } else if n_columnas <= n_elementos {
        n_columnas
    } else {
        n_elementos
    }
}

/// The assignments `asig` are the ones that the lookups and checks may have produced for
/// the elements `elementos` of a row: the `i`-th holds the `i`-th element, a position that
/// `posicion_en_header` may return for the `i`-th column, and a value that
/// `comprobar_dato` may return for that element at that position.
pub open spec fn asignaciones_posibles<P, C>(
    asig: Seq<(String, usize, String)>,
    elementos: Seq<Seq<char>>,
    columnas: Seq<String>,
    posicion_en_header: P,
    comprobar_dato: C,
) -> bool where
    P: Fn(&String) -> Result<usize, SqlError>,
    C: Fn(&String, usize) -> Result<String, SqlError>,
 {
    forall|i: int|
        0 <= i < asig.len() ==> {
            &&& (#[trigger] asig[i]).0@ == elementos[i]
            &&& posicion_en_header.ensures((&columnas[i],), Ok(asig[i].1))
            &&& comprobar_dato.ensures((&asig[i].0, asig[i].1), Ok(asig[i].2))
        }
}

/// `e` is an error that placing the element `elemento` under the column `columna` may
/// give: the lookup of the column failed with `e`, or it found a position and the check of
/// the element at that position failed with `e`.
pub open spec fn error_de_elemento<P, C>(
    e: SqlError,
    elemento: Seq<char>,
    columna: String,
    posicion_en_header: P,
    comprobar_dato: C,
) -> bool where
    P: Fn(&String) -> Result<usize, SqlError>,
    C: Fn(&String, usize) -> Result<String, SqlError>,
 {
    ||| posicion_en_header.ensures((&columna,), Err(e))
    ||| exists|p: usize, x: String|
        x@ == elemento && posicion_en_header.ensures((&columna,), Ok(p))
            && #[trigger] comprobar_dato.ensures((&x, p), Err(e))
}

/// Row `fila` is one that `crear_matriz` may build from the elements `elementos`.
pub open spec fn fila_posible<P, C>(
    fila: Seq<String>,
    elementos: Seq<Seq<char>>,
    columnas: Seq<String>,
    n_header: int,
    posicion_en_header: P,
    comprobar_dato: C,
) -> bool where
    P: Fn(&String) -> Result<usize, SqlError>,
    C: Fn(&String, usize) -> Result<String, SqlError>,
 {
    exists|asig: Seq<(String, usize, String)>|
        {
            &&& asig.len() == limite_fila(n_header, columnas.len() as int, elementos.len() as int)
            &&& asignaciones_posibles(asig, elementos, columnas, posicion_en_header, comprobar_dato)
            &&& #[trigger] armar_fila(n_header, asig) == vistas_cadenas(fila)
        }
}

/// Builds the rows of a multi-row `INSERT`. The values are split into rows and each row
/// into elements (see `filas_de_valores`). Each row has one cell per header column,
/// empty unless an element lands there: the `i`-th element, for `i` below the number of
/// header columns and of named columns, goes to the position that `posicion_en_header`
/// gives for the `i`-th column, as `comprobar_dato` returns it for that position. The
/// first error of a lookup or a check is returned.
pub fn crear_matriz<P, C>(
    valores: String,
    columnas: Vec<String>,
    header: &[String],
    posicion_en_header: P,
    comprobar_dato: C,
) -> (r: Result<Vec<Vec<String>>, SqlError>) where
    P: Fn(&String) -> Result<usize, SqlError>,
    C: Fn(&String, usize) -> Result<String, SqlError>,

    requires
        forall|c: &String| #[trigger] posicion_en_header.requires((c,)),
        forall|x: &String, p: usize| #[trigger] comprobar_dato.requires((x, p)),
        forall|c: &String, p: usize|
            #[trigger] posicion_en_header.ensures((c,), Ok(p)) ==> p < header@.len(),
    ensures
        columnas.len() == 0 || header@.len() == 0 ==> r is Ok,
        match r {
            Ok(m) => {
                let filas = filas_de_valores(valores@);
                &&& m.len() == filas.len()
                &&& forall|k: int|
                    0 <= k < filas.len() ==> fila_posible(
                        #[trigger] m@[k]@,
                        filas[k],
                        columnas@,
                        header@.len() as int,
                        posicion_en_header,
                        comprobar_dato,
                    )
            },
            Err(e) => exists|k: int, i: int|
                {
                    &&& 0 <= k < filas_de_valores(valores@).len()
                    &&& 0 <= i < limite_fila(
                        header@.len() as int,
                        columnas.len() as int,
                        filas_de_valores(valores@)[k].len() as int,
                    )
                    &&& #[trigger] error_de_elemento(
                        e,
                        filas_de_valores(valores@)[k][i],
                        columnas@[i],
                        posicion_en_header,
                        comprobar_dato,
                    )
                },
        },
{
    let v = caracteres(valores.as_str());
    let juntos = vec![')', '('];
    let separados = vec![')', ',', '('];
    let coma = vec![','];
    assert(juntos@ =~= seq![')', '(']);
    assert(separados@ =~= seq![')', ',', '(']);
    assert(coma@ =~= seq![',']);
    let unidos = reemplazar_patron(&v, &juntos, &separados);
    let recortado = recortar_parentesis_de(&unidos);
    let grupos = partir_por(&recortado, &separados);
    let ghost filas = filas_de_valores(valores@);
    let n_header = header.len();
    let mut matriz: Vec<Vec<String>> = Vec::new();
    let n = grupos.len();
    assert(filas.len() == n);
    for k in 0..n
        invariant
            n == grupos.len(),
            n_header == header@.len(),
            vistas(grupos@) == partir(recortado@, seq![')', ',', '(']),
            recortado@ == recortar_parentesis(reemplazar(valores@, seq![')', '('], seq![')', ',', '('])),
            filas == filas_de_valores(valores@),
            filas.len() == n,
            coma@ == seq![','],
            matriz.len() == k,
            forall|c: &String| #[trigger] posicion_en_header.requires((c,)),
            forall|x: &String, p: usize| #[trigger] comprobar_dato.requires((x, p)),
            forall|c: &String, p: usize|
                #[trigger] posicion_en_header.ensures((c,), Ok(p)) ==> p < header@.len(),
            forall|j: int|
                0 <= j < k ==> fila_posible(
                    #[trigger] matriz@[j]@,
                    filas[j],
                    columnas@,
                    n_header as int,
                    posicion_en_header,
                    comprobar_dato,
                ),
    {
        let elementos = partir_por(&grupos[k], &coma);
        assert(vistas(elementos@) == filas[k as int]);
        let mut fila: Vec<String> = Vec::new();
        for _p in 0..n_header
            invariant
                forall|q: int| 0 <= q < fila.len() ==> (#[trigger] fila@[q])@ == Seq::<char>::empty(),
                fila.len() == _p,
        {
            fila.push(String::new());
        }
        let ghost mut asig: Seq<(String, usize, String)> = Seq::empty();
        assert(armar_fila(n_header as int, asig) =~= vistas_cadenas(fila@));
        let m = elementos.len();
        for i in 0..m
            invariant
                m == elementos.len(),
                n_header == header@.len(),
                k < n,
                filas == filas_de_valores(valores@),
                filas.len() == n,
                fila.len() == n_header,
                vistas(elementos@) == filas[k as int],
                asig.len() == limite_fila(n_header as int, columnas.len() as int, i as int),
                asignaciones_posibles(asig, filas[k as int], columnas@, posicion_en_header, comprobar_dato),
                armar_fila(n_header as int, asig) == vistas_cadenas(fila@),
                forall|c: &String| #[trigger] posicion_en_header.requires((c,)),
                forall|x: &String, p: usize| #[trigger] comprobar_dato.requires((x, p)),
                forall|c: &String, p: usize|
                    #[trigger] posicion_en_header.ensures((c,), Ok(p)) ==> p < header@.len(),
        {
            if i < n_header && i < columnas.len() {
                assert(i < limite_fila(
                    n_header as int,
                    columnas.len() as int,
                    filas[k as int].len() as int,
                ));
                let pos = match posicion_en_header(&columnas[i]) {
                    Ok(pos) => pos,
                    Err(e) => {
                        assert(error_de_elemento(
                            e,
                            filas[k as int][i as int],
                            columnas@[i as int],
                            posicion_en_header,
                            comprobar_dato,
                        ));
                        return Err(e);
                    },
                };
                let elemento = a_cadena(&elementos[i]);
                let valor = match comprobar_dato(&elemento, pos) {
                    Ok(valor) => valor,
                    Err(e) => {
                        assert(elemento@ == filas[k as int][i as int]);
                        assert(error_de_elemento(
                            e,
                            filas[k as int][i as int],
                            columnas@[i as int],
                            posicion_en_header,
                            comprobar_dato,
                        ));
                        return Err(e);
                    },
                };
                let ghost previo = asig;
                let ghost vista_previa = vistas_cadenas(fila@);
                proof {
                    asig = asig.push((elemento, pos, valor));
                }
                fila.set(pos, valor);
                assert(armar_fila(n_header as int, asig) =~= vistas_cadenas(fila@)) by {
                    assert forall|q: int| 0 <= q < n_header implies #[trigger] celda(asig, q)
                        == vistas_cadenas(fila@)[q] by {
                        assert(asig.drop_last() == previo);
                        assert(celda(previo, q) == vista_previa[q]);
                    }
                }
                assert forall|j: int| 0 <= j < asig.len() implies {
                    &&& (#[trigger] asig[j]).0@ == filas[k as int][j]
                    &&& posicion_en_header.ensures((&columnas@[j],), Ok(asig[j].1))
                    &&& comprobar_dato.ensures((&asig[j].0, asig[j].1), Ok(asig[j].2))
                } by {
                    if j < previo.len() {
                        assert(asig[j] == previo[j]);
                    }
                }
            }
        }
        assert(fila_posible(fila@, filas[k as int], columnas@, n_header as int, posicion_en_header, comprobar_dato)) by {
            assert(limite_fila(n_header as int, columnas.len() as int, m as int) == asig.len());
        }
        let ghost antes = matriz@;
        matriz.push(fila);
        assert forall|j: int| 0 <= j < k + 1 implies fila_posible(
            #[trigger] matriz@[j]@,
            filas[j],
            columnas@,
            n_header as int,
            posicion_en_header,
            comprobar_dato,
        ) by {
            if j < k {
                assert(matriz@[j] == antes[j]);
            }
        }
    }
    Ok(matriz)
}


/// The condition tokens after `WHERE` are non-empty, hold no whitespace and no quote.
pub proof fn ley_condiciones_limpias(q: Seq<char>)
    ensures
        forall|k: int|
            0 <= k < condiciones_where(q).len() ==> {
                let w = #[trigger] condiciones_where(q)[k];
                &&& w.len() > 0
                &&& forall|i: int| 0 <= i < w.len() ==> !es_espacio(#[trigger] w[i])
                &&& !w.contains('\'')
            },
{
    let texto = quitar(recortar_final(despues_de_where(q), ';'), seq!['\'']);
    lema_quitar_elimina(recortar_final(despues_de_where(q), ';'), '\'');
    lema_fichas_conservan(texto, true, '\'');
    ley_fichas_cubren_la_entrada(texto, true);
    assert forall|k: int| 0 <= k < condiciones_where(q).len() implies {
        let w = #[trigger] condiciones_where(q)[k];
        &&& w.len() > 0
        &&& forall|i: int| 0 <= i < w.len() ==> !es_espacio(#[trigger] w[i])
        &&& !w.contains('\'')
    } by {
        let w = condiciones_where(q)[k];
        assert(ficha_valida(w, true));
        assert forall|i: int| 0 <= i < w.len() implies !es_espacio(#[trigger] w[i]) by {
            if !(w.len() == 1 && aislado(w[0], true)) {
                assert(de_palabra(w[i], true));
            }
        }
    }
}

/// The table of a `DELETE` holds no space and no parenthesis.
pub proof fn ley_nombre_delete_limpio(q: Seq<char>)
    ensures
        !nombre_delete(q).contains(' '),
        !nombre_delete(q).contains('('),
        !nombre_delete(q).contains(')'),
{
    let sin_claves = quitar(quitar(antes_de_where(q), clave_delete()), clave_from());
    let a = quitar(recortar(sin_claves), seq!['(']);
    let b = quitar(a, seq![')']);
    lema_quitar_elimina(recortar(sin_claves), '(');
    lema_quitar_conserva(a, seq![')'], '(');
    lema_quitar_conserva(b, seq![' '], '(');
    lema_quitar_elimina(a, ')');
    lema_quitar_conserva(b, seq![' '], ')');
    lema_quitar_elimina(b, ' ');
}

/// The head of a `SELECT` holds no quote, parenthesis or space.
proof fn lema_cabecera_limpia(q: Seq<char>, d: char)
    requires
        d == '\'' || d == '(' || d == ')' || d == ' ',
    ensures
        !cabecera_select(q).contains(d),
{
    let sin_select = quitar(recortar(antes_de_where(q)), clave_select());
    let a = quitar(sin_select, seq!['\'']);
    let b = quitar(a, seq!['(']);
    let c = quitar(b, seq![')']);
    if d == '\'' {
        lema_quitar_elimina(sin_select, '\'');
        lema_quitar_conserva(a, seq!['('], d);
        lema_quitar_conserva(b, seq![')'], d);
        lema_quitar_conserva(c, seq![' '], d);
    } else if d == '(' {
        lema_quitar_elimina(a, '(');
        lema_quitar_conserva(b, seq![')'], d);
        lema_quitar_conserva(c, seq![' '], d);
    } else if d == ')' {
        lema_quitar_elimina(b, ')');
        lema_quitar_conserva(c, seq![' '], d);
    } else {
        lema_quitar_elimina(c, ' ');
    }
}

/// The table and the columns of a `SELECT` hold no space, parenthesis or quote.
pub proof fn ley_select_limpio(q: Seq<char>, d: char)
    requires
        partir(cabecera_select(q), clave_from()).len() >= 2,
        d == '\'' || d == '(' || d == ')' || d == ' ',
    ensures
        !nombre_select(q).contains(d),
        !columnas_select(q).contains(d),
{
    let partes = partir(cabecera_select(q), clave_from());
    lema_cabecera_limpia(q, d);
    lema_partir_conserva(cabecera_select(q), clave_from(), d);
    assert(!partes[1].contains(d));
    assert(!partes[0].contains(d));
    lema_recortar_conserva(partes[1], d);
    lema_quitar_conserva(recortar(partes[1]), seq![' '], d);
    lema_recortar_conserva(partes[0], d);
    let a = quitar(recortar(partes[0]), seq![' ']);
    let b = quitar(a, seq!['(']);
    lema_quitar_conserva(recortar(partes[0]), seq![' '], d);
    lema_quitar_conserva(a, seq!['('], d);
    lema_quitar_conserva(b, seq![')'], d);
}


/// Column names as an `INSERT` lists them: non-empty, without commas, parentheses or
/// whitespace.
pub open spec fn nombre_de_columna(c: Seq<char>) -> bool {
    &&& c.len() > 0
    &&& !c.contains(',')
    &&& !c.contains('(')
    &&& !c.contains(')')
    &&& forall|i: int| 0 <= i < c.len() ==> !es_espacio(#[trigger] c[i])
}

/// When an `INSERT` reads `INSERT INTO tabla (c1,...,cn) VALUES ...`, with the columns
/// written as one parenthesised, comma-separated list of names, the query is accepted and
/// the columns read back are those names.
pub proof fn ley_columnas_insert(q: Seq<char>, cs: Seq<Seq<char>>)
    requires
        palabras(q).len() > 1 && palabras(q)[1] == clave_into(),
        posicion_values(q) == 4,
        palabras(q).len() > 4,
        palabras(q)[3] == seq!['('] + unir(cs, seq![',']) + seq![')'],
        cs.len() >= 1,
        forall|i: int| 0 <= i < cs.len() ==> nombre_de_columna(#[trigger] cs[i]),
    ensures
        insert_valido(q),
        columnas_insert(q) == cs,
{
    let ws = palabras(q);
    lema_posicion(ws, clave_values());
    let t = ws.take(4);
    let sp = seq![' '];
    assert(t.len() == 4);
    assert(t.take(2).drop_last() =~= seq![t[0]]);
    assert(unir(seq![t[0]], sp) == t[0]);
    assert(t.take(2).len() == 2 && t.take(2).last() == t[1]);
    let dos = unir(t.take(2), sp);
    assert(dos == t[0] + sp + t[1]);
    assert(t.take(3).drop_last() =~= t.take(2));
    assert(t.take(3).len() == 3 && t.take(3).last() == t[2]);
    let tres = unir(t.take(3), sp);
    assert(tres == dos + sp + t[2]);
    assert(t.drop_last() =~= t.take(3));
    let todo = unir(t, sp);
    assert(todo == tres + sp + t[3]);
    assert(todo =~= t[0] + (sp + t[1] + sp + t[2] + sp + t[3]));
    let k: int = t[0].len() as int + 1;
    assert(todo.skip(k).take(4) =~= clave_into());
    assert(empieza_con(todo.skip(k), clave_into()));
    assert(contiene(todo, clave_into()));
    let j = unir(cs, seq![',']);
    assert(ws.subrange(3, 4) =~= seq![ws[3]]);
    assert(unir(ws.subrange(3, 4), seq![',']) == ws[3]);
    assert forall|i: int| 0 <= i < cs.len() implies !(#[trigger] cs[i]).contains('(') by {
        assert(nombre_de_columna(cs[i]));
    }
    assert forall|i: int| 0 <= i < cs.len() implies !(#[trigger] cs[i]).contains(')') by {
        assert(nombre_de_columna(cs[i]));
    }
    assert forall|i: int| 0 <= i < cs.len() implies !(#[trigger] cs[i]).contains(',') by {
        assert(nombre_de_columna(cs[i]));
    }
    assert forall|i: int| 0 <= i < cs.len() implies (#[trigger] cs[i]).len() > 0 by {
        assert(nombre_de_columna(cs[i]));
    }
    lema_unir_conserva(cs, seq![','], '(');
    lema_unir_conserva(cs, seq![','], ')');
    lema_quitar_concat(seq!['('] + j, seq![')'], '(');
    lema_quitar_concat(seq!['('], j, '(');
    lema_quitar_ausente(j, '(');
    lema_quitar_ausente(seq![')'], '(');
    assert(seq!['('].take(1) =~= seq!['(']);
    assert(quitar(seq!['('].skip(1), seq!['(']) == Seq::<char>::empty());
    assert(quitar(seq!['('], seq!['(']) == Seq::<char>::empty());
    let sin_abre = quitar(seq!['('] + j + seq![')'], seq!['(']);
    assert(sin_abre =~= j + seq![')']);
    lema_quitar_concat(j, seq![')'], ')');
    lema_quitar_ausente(j, ')');
    assert(seq![')'].take(1) =~= seq![')']);
    assert(quitar(seq![')'].skip(1), seq![')']) == Seq::<char>::empty());
    assert(quitar(seq![')'], seq![')']) == Seq::<char>::empty());
    assert(quitar(sin_abre, seq![')']) =~= j);
    lema_unir_extremos(cs, seq![',']);
    assert(nombre_de_columna(cs[0]));
    assert(nombre_de_columna(cs[cs.len() - 1]));
    assert(!es_espacio(cs[0][0]));
    assert(!es_espacio(cs.last()[cs.last().len() - 1]));
    assert(recortar_fin(j) == j);
    assert(recortar_inicio(j) == j);
    lema_partir_unir_comas(cs);
}


/// A token of the conditions is also a well-formed word.
proof fn lema_ficha_es_palabra(w: Seq<char>)
    requires
        ficha_valida(w, true),
    ensures
        ficha_valida(w, false),
{
    if w.len() == 1 && aislado(w[0], true) {
        assert(de_palabra(w[0], false));
    } else {
        assert forall|i: int| 0 <= i < w.len() implies de_palabra(#[trigger] w[i], false) by {
            assert(de_palabra(w[i], true));
        }
    }
}

/// The joined conditions before the `ORDER` at `k`, with the space that follows them.
pub open spec fn antes_de_orden(cs: Seq<Seq<char>>, k: int) -> Seq<char> {
    if k > 0 {
        unir(cs.take(k), seq![' ']) + seq![' ']
    } else {
        Seq::<char>::empty()
    }
}

/// The joined conditions after the `BY` at `k + 1`, with the space that precedes them.
pub open spec fn tras_orden(cs: Seq<Seq<char>>, k: int) -> Seq<char> {
    if k + 2 < cs.len() {
        seq![' '] + unir(cs.skip(k + 2), seq![' '])
    } else {
        Seq::<char>::empty()
    }
}

proof fn lema_unidas_en_tres(cs: Seq<Seq<char>>, k: int)
    requires
        0 <= k,
        k + 1 < cs.len(),
        cs[k] == clave_order(),
        cs[k + 1] == clave_by(),
    ensures
        condiciones_unidas(cs) == antes_de_orden(cs, k) + clave_order_by() + tras_orden(cs, k),
{
    let sp = seq![' '];
    let a = cs.take(k);
    let m = seq![clave_order(), clave_by()];
    let bs = cs.skip(k + 2);
    assert(m.drop_last() =~= seq![clave_order()]);
    assert(unir(seq![clave_order()], sp) == clave_order());
    assert(m.last() == clave_by());
    assert(unir(m, sp) == clave_order() + sp + clave_by());
    assert(unir(m, sp) =~= clave_order_by());
    if k > 0 && k + 2 < cs.len() {
        assert(cs =~= (a + m) + bs);
        lema_unir_concat(a + m, bs, sp);
        lema_unir_concat(a, m, sp);
    } else if k > 0 {
        assert(cs =~= a + m);
        lema_unir_concat(a, m, sp);
    } else if k + 2 < cs.len() {
        assert(cs =~= m + bs);
        lema_unir_concat(m, bs, sp);
    } else {
        assert(cs =~= m);
    }
    assert(condiciones_unidas(cs) =~= antes_de_orden(cs, k) + clave_order_by() + tras_orden(cs, k));
}

proof fn lema_partes_de_orden(cs: Seq<Seq<char>>, k: int)
    requires
        forall|i: int| 0 <= i < cs.len() ==> ficha_valida(#[trigger] cs[i], true),
        0 <= k,
        k + 1 < cs.len(),
    ensures
        fichas(antes_de_orden(cs, k), true) == cs.take(k),
        palabras(tras_orden(cs, k)) == cs.skip(k + 2),
{
    let sp = seq![' '];
    let a = cs.take(k);
    let bs = cs.skip(k + 2);
    let pre = antes_de_orden(cs, k);
    let post = tras_orden(cs, k);
    if k > 0 {
        assert forall|i: int| 0 <= i < a.len() implies ficha_valida(#[trigger] a[i], true) by {
            assert(a[i] == cs[i]);
        }
        ley_unir_y_trocear(a, true);
        assert(pre.drop_last() =~= unir(a, sp));
    } else {
        assert(a =~= Seq::<Seq<char>>::empty());
    }
    if k + 2 < cs.len() {
        assert forall|i: int| 0 <= i < bs.len() implies ficha_valida(#[trigger] bs[i], false) by {
            assert(bs[i] == cs[i + k + 2]);
            lema_ficha_es_palabra(bs[i]);
        }
        ley_unir_y_trocear(bs, false);
        ley_separador_corta_fichas(Seq::<char>::empty(), ' ', unir(bs, sp), false);
        assert(Seq::<char>::empty() + seq![' '] + unir(bs, sp) =~= post);
        assert(fichas(Seq::<char>::empty(), false) =~= Seq::<Seq<char>>::empty());
        assert(palabras(post) =~= bs);
    } else {
        assert(bs =~= Seq::<Seq<char>>::empty());
    }
}

/// When the condition tokens hold `ORDER` and `BY` at positions `k` and `k + 1`, and
/// `ORDER BY` occurs only once in the conditions joined by spaces, the ordering is
/// separated there: the conditions are the tokens before `k` and the ordering the words
/// after `k + 1`.
pub proof fn ley_order_por_indice(cs: Seq<Seq<char>>, k: int)
    requires
        forall|i: int| 0 <= i < cs.len() ==> ficha_valida(#[trigger] cs[i], true),
        0 <= k,
        k + 1 < cs.len(),
        cs[k] == clave_order(),
        cs[k + 1] == clave_by(),
        forall|i: int, j: int|
            #![trigger empieza_con(condiciones_unidas(cs).skip(i), clave_order_by()), empieza_con(condiciones_unidas(cs).skip(j), clave_order_by())]
            0 <= i <= j <= condiciones_unidas(cs).len() && empieza_con(
                condiciones_unidas(cs).skip(i),
                clave_order_by(),
            ) && empieza_con(condiciones_unidas(cs).skip(j), clave_order_by()) ==> i == j,
    ensures
        tiene_order_by(cs),
        partir(condiciones_unidas(cs), clave_order_by()).len() == 2,
        fichas(partir(condiciones_unidas(cs), clave_order_by())[0], true) == cs.take(k),
        palabras(partir(condiciones_unidas(cs), clave_order_by())[1]) == cs.skip(k + 2),
{
    let ob = clave_order_by();
    let u = condiciones_unidas(cs);
    let pre = antes_de_orden(cs, k);
    let post = tras_orden(cs, k);
    lema_unidas_en_tres(cs, k);
    let n = pre.len() as int;
    assert(u.skip(n).take(ob.len() as int) =~= ob);
    assert(empieza_con(u.skip(n), ob));
    assert forall|i: int| 0 <= i < pre.len() implies !#[trigger] empieza_con(
        (pre + ob + post).skip(i),
        ob,
    ) by {
        if empieza_con(u.skip(i), ob) {
            assert(i == n);
        }
    }
    assert(!contiene(post, ob)) by {
        if contiene(post, ob) {
            let i = choose|i: int| 0 <= i <= post.len() && #[trigger] empieza_con(post.skip(i), ob);
            assert(u.skip(n + ob.len() + i) =~= post.skip(i));
            assert(empieza_con(u.skip(n + ob.len() + i), ob));
        }
    }
    lema_partir_primera(pre, ob, post);
    lema_partir_sin_patron(post, ob);
    assert(partir(u, ob) =~= seq![pre, post]);
    lema_partes_de_orden(cs, k);
    assert forall|i: int| 0 <= i < cs.len() implies ficha_valida(#[trigger] cs[i], false) by {
        lema_ficha_es_palabra(cs[i]);
    }
    ley_unir_y_trocear(cs, false);
    assert(palabras(u)[k] == clave_order());
    assert(palabras(u)[k + 1] == clave_by());
}


/// The cell at `p` holds the value of assignment `i` when `i` assigns `p` and no later
/// assignment does.
proof fn lema_celda_ultima(asig: Seq<(String, usize, String)>, p: int, i: int)
    requires
        0 <= i < asig.len(),
        asig[i].1 == p,
        forall|j: int| i < j < asig.len() ==> (#[trigger] asig[j]).1 != p,
    ensures
        celda(asig, p) == asig[i].2@,
    decreases asig.len(),
{
    if i < asig.len() - 1 {
        let d = asig.drop_last();
        assert forall|j: int| i < j < d.len() implies (#[trigger] d[j]).1 != p by {
            assert(d[j] == asig[j]);
            assert(asig[j].1 != p);
        }
        assert(asig.last() == asig[asig.len() - 1]);
        lema_celda_ultima(d, p, i);
        assert(d[i] == asig[i]);
    }
}

/// Every element that a row places lands where the header has its column: for a row that
/// `crear_matriz` may build, take any index `i` below the number of header columns, of
/// named columns and of elements of the row. If looking up column `i` always gives `p`, no
/// other placed column can be found at `p`, and checking element `i` at `p` always gives
/// a value with the view of `v`, then the cell at `p` is `v`. No element below that
/// bound is skipped.
pub proof fn ley_crear_matriz_coloca_cada_elemento<P, C>(
    fila: Seq<String>,
    elementos: Seq<Seq<char>>,
    columnas: Seq<String>,
    n_header: int,
    posicion_en_header: P,
    comprobar_dato: C,
    i: int,
    p: usize,
    v: String,
) where
    P: Fn(&String) -> Result<usize, SqlError>,
    C: Fn(&String, usize) -> Result<String, SqlError>,

    requires
        fila_posible(fila, elementos, columnas, n_header, posicion_en_header, comprobar_dato),
        0 <= i,
        i < n_header,
        i < columnas.len(),
        i < elementos.len(),
        p < n_header,
        forall|q: usize| #[trigger] posicion_en_header.ensures((&columnas[i],), Ok(q)) ==> q == p,
        forall|j: int, q: usize|
            0 <= j < n_header && j < columnas.len() && j < elementos.len() && j != i
                && #[trigger] posicion_en_header.ensures((&columnas[j],), Ok(q)) ==> q != p,
        forall|x: &String, w: String|
            x@ == elementos[i] && #[trigger] comprobar_dato.ensures((x, p), Ok(w)) ==> w@ == v@,
    ensures
        p < fila.len(),
        fila[p as int]@ == v@,
{
    let asig = choose|asig: Seq<(String, usize, String)>|
        {
            &&& asig.len() == limite_fila(n_header, columnas.len() as int, elementos.len() as int)
            &&& asignaciones_posibles(asig, elementos, columnas, posicion_en_header, comprobar_dato)
            &&& #[trigger] armar_fila(n_header, asig) == vistas_cadenas(fila)
        };
    assert(i < asig.len());
    let a = asig[i];
    assert(posicion_en_header.ensures((&columnas[i],), Ok(a.1)));
    assert(a.1 == p);
    assert(comprobar_dato.ensures((&a.0, a.1), Ok(a.2)));
    assert(a.0@ == elementos[i]);
    assert(a.2@ == v@);
    assert forall|j: int| i < j < asig.len() implies (#[trigger] asig[j]).1 != p by {
        let b = asig[j];
        assert(posicion_en_header.ensures((&columnas[j],), Ok(b.1)));
    }
    lema_celda_ultima(asig, p as int, i);
    assert(vistas_cadenas(fila).len() == n_header);
    assert(fila.len() == n_header);
    assert(vistas_cadenas(fila)[p as int] == fila[p as int]@);
    assert(armar_fila(n_header, asig)[p as int] == celda(asig, p as int));
}


/// The conditions after `WHERE` keep their parentheses apart: every token is `(`, `)` or
/// holds no parenthesis, and there are as many `(` and `)` tokens as the text between the
/// first and the second `WHERE` has `(` and `)` characters. Read one after the other, the
/// tokens are that text without its trailing `;`, keeping every character but whitespace
/// and single quotes, in order.
pub proof fn ley_condiciones_where_parentesis(q: Seq<char>)
    ensures
        condiciones_where(q).flatten() == recortar_final(partir(q, clave_where())[1], ';').filter(
            |c: char| c != '\'' && no_espacio(c),
        ),
        forall|k: int|
            0 <= k < condiciones_where(q).len() ==> {
                let w = #[trigger] condiciones_where(q)[k];
                ||| w == seq!['(']
                ||| w == seq![')']
                ||| !w.contains('(') && !w.contains(')')
            },
        cuenta_fichas(condiciones_where(q), seq!['(']) == cuenta_caracter(
            partir(q, clave_where())[1],
            '(',
        ),
        cuenta_fichas(condiciones_where(q), seq![')']) == cuenta_caracter(
            partir(q, clave_where())[1],
            ')',
        ),
{
    let r = partir(q, clave_where())[1];
    let texto = quitar(recortar_final(r, ';'), seq!['\'']);
    ley_parentesis_sueltos(texto);
    ley_fichas_cubren_la_entrada(texto, true);
    lema_quitar_es_filtro(recortar_final(r, ';'), '\'');
    lema_filtro_doble(recortar_final(r, ';'), |c: char| c != '\'', |c: char| no_espacio(c));
    assert((|c: char| c != '\'' && no_espacio(c)) =~= (|c: char|
        (|c: char| c != '\'')(c) && (|c: char| no_espacio(c))(c)));
    lema_cuenta_quitar(recortar_final(r, ';'), '\'', '(');
    lema_cuenta_quitar(recortar_final(r, ';'), '\'', ')');
    lema_cuenta_recortar_final(r, ';', '(');
    lema_cuenta_recortar_final(r, ';', ')');
}

/// The conditions of an `UPDATE` keep their parentheses apart: every token is `(`, `)`
/// or holds no parenthesis, and there are as many `(` and `)` tokens as the text after
/// `WHERE` has `(` and `)` characters. Read one after the other, the tokens are that text
/// without its whitespace, every other character kept in order.
pub proof fn ley_condiciones_update_parentesis(q: Seq<char>)
    requires
        update_valido(q),
    ensures
        condiciones_update(q).flatten() == partir_una_vez(valores_update(q), clave_where()).unwrap().1.filter(
            |c: char| no_espacio(c),
        ),
        forall|k: int|
            0 <= k < condiciones_update(q).len() ==> {
                let w = #[trigger] condiciones_update(q)[k];
                ||| w == seq!['(']
                ||| w == seq![')']
                ||| !w.contains('(') && !w.contains(')')
            },
        cuenta_fichas(condiciones_update(q), seq!['(']) == cuenta_caracter(
            partir_una_vez(valores_update(q), clave_where()).unwrap().1,
            '(',
        ),
        cuenta_fichas(condiciones_update(q), seq![')']) == cuenta_caracter(
            partir_una_vez(valores_update(q), clave_where()).unwrap().1,
            ')',
        ),
{
    ley_parentesis_sueltos(partir_una_vez(valores_update(q), clave_where()).unwrap().1);
    ley_fichas_cubren_la_entrada(partir_una_vez(valores_update(q), clave_where()).unwrap().1, true);
}

/// The values of an accepted `INSERT` are the words after `VALUES` joined by spaces, with
/// the trailing `;` and surrounding whitespace trimmed, keeping every character but the
/// spaces and the single quotes, in order.
pub proof fn ley_valores_insert(q: Seq<char>)
    ensures
        valores_insert(q) == recortar(
            recortar_final(
                unir(palabras(q).skip(posicion_values(q) + 1), seq![' ']),
                ';',
            ),
        ).filter(|c: char| c != ' ' && c != '\''),
{
    let x = recortar(
        recortar_final(unir(palabras(q).skip(posicion_values(q) + 1), seq![' ']), ';'),
    );
    lema_quitar_es_filtro(x, ' ');
    lema_quitar_es_filtro(quitar(x, seq![' ']), '\'');
    lema_filtro_doble(x, |c: char| c != ' ', |c: char| c != '\'');
    assert((|c: char| c != ' ' && c != '\'') =~= (|c: char| (|c: char| c != ' ')(c) && (
    |c: char| c != '\'')(c)));
}


/// A name as written in a query: no whitespace, quote or parenthesis, and none of the
/// keywords `SELECT`, `DELETE`, `FROM`, `WHERE` inside it.
pub open spec fn nombre_simple(x: Seq<char>) -> bool {
    &&& forall|i: int| 0 <= i < x.len() ==> !es_espacio(#[trigger] x[i])
    &&& !x.contains('\'')
    &&& !x.contains('(')
    &&& !x.contains(')')
    &&& !contiene(x, clave_select())
    &&& !contiene(x, clave_delete())
    &&& !contiene(x, clave_from())
    &&& !contiene(x, clave_where())
}

/// The query `SELECT c FROM t WHERE` followed by `resto`.
pub open spec fn consulta_select(c: Seq<char>, t: Seq<char>, resto: Seq<char>) -> Seq<char> {
    clave_select() + seq![' '] + c + seq![' '] + clave_from() + seq![' '] + t + seq![' ']
        + clave_where() + resto
}

/// The query `DELETE FROM t WHERE` followed by `resto`.
pub open spec fn consulta_delete(t: Seq<char>, resto: Seq<char>) -> Seq<char> {
    clave_delete() + seq![' '] + clave_from() + seq![' '] + t + seq![' '] + clave_where() + resto
}

/// The keywords hold no space, and none of those that a query names holds another.
proof fn lema_claves_sin_espacio()
    ensures
        !clave_where().contains(' '),
        !clave_select().contains(' '),
        !clave_from().contains(' '),
        !clave_delete().contains(' '),
        !contiene(clave_select(), clave_where()),
        !contiene(clave_from(), clave_where()),
        !contiene(clave_delete(), clave_where()),
        !contiene(clave_from(), clave_select()),
        !contiene(clave_from(), clave_delete()),
        !contiene(seq![' '], clave_where()),
        !contiene(Seq::<char>::empty(), clave_from()),
{
    assert(clave_where()[0] == 'W');
    assert(clave_select()[0] == 'S');
    assert(clave_delete()[0] == 'D');
    assert(clave_from()[0] == 'F');
    lema_no_contiene_por_inicial(clave_select(), clave_where());
    lema_no_contiene_por_inicial(clave_from(), clave_where());
    lema_no_contiene_por_inicial(clave_delete(), clave_where());
    lema_no_contiene_por_inicial(clave_from(), clave_select());
    lema_no_contiene_por_inicial(clave_from(), clave_delete());
    lema_no_contiene_por_inicial(seq![' '], clave_where());
    lema_no_contiene_vacio(clave_from());
}

/// Splitting `x`, `w`, then the rest at `w`, a pattern without spaces, where `x` ends
/// with a space and holds no `w`, gives `x` first.
proof fn lema_antes_de_clave(x: Seq<char>, w: Seq<char>, resto: Seq<char>)
    requires
        x.len() > 0,
        x.last() == ' ',
        w.len() > 0,
        !w.contains(' '),
        !contiene(x, w),
    ensures
        partir(x + w + resto, w) == seq![x] + partir(resto, w),
        partir(x + w + resto, w)[0] == x,
{
    let q = x + w + resto;
    assert forall|i: int| 0 <= i < x.len() implies !#[trigger] empieza_con(q.skip(i), w) by {
        if empieza_con(q.skip(i), w) {
            if i + w.len() <= x.len() {
                assert(x.skip(i).take(w.len() as int) =~= q.skip(i).take(w.len() as int));
                assert(empieza_con(x.skip(i), w));
            } else {
                let k = x.len() - 1 - i;
                assert(q.skip(i).take(w.len() as int)[k] == q[x.len() - 1]);
                assert(q[x.len() - 1] == ' ');
                assert(w[k] == ' ');
            }
        }
    }
    lema_partir_primera(x, w, resto);
}

/// Splitting `c`, `FROM`, `t` at `FROM`, where neither name holds `FROM`, gives `c` and `t`.
proof fn lema_partir_cabecera(c: Seq<char>, t: Seq<char>)
    requires
        !contiene(c, clave_from()),
        !contiene(t, clave_from()),
    ensures
        partir(c + clave_from() + t, clave_from()) == seq![c, t],
{
    let fr = clave_from();
    let q = c + fr + t;
    assert(fr =~= seq!['F', 'R', 'O', 'M']);
    assert forall|i: int| 0 <= i < c.len() implies !#[trigger] empieza_con(q.skip(i), fr) by {
        if empieza_con(q.skip(i), fr) {
            if i + fr.len() <= c.len() {
                assert(c.skip(i).take(fr.len() as int) =~= q.skip(i).take(fr.len() as int));
                assert(empieza_con(c.skip(i), fr));
                assert(contiene(c, fr));
            } else {
                let k = c.len() - i;
                assert(q.skip(i).take(fr.len() as int)[k] == q[c.len() as int]);
                assert(q[c.len() as int] == 'F');
                assert(fr[k] == 'F');
            }
        }
    }
    lema_partir_primera(c, fr, t);
    lema_partir_sin_patron(t, fr);
}

/// In `SELECT c FROM t WHERE ...`, where `c` and `t` are names as written in a query
/// (`t` not empty), the columns are exactly `c` and the table is exactly `t`: every
/// character of the text between `SELECT` and `FROM`, and between `FROM` and `WHERE`,
/// is kept, in order. When `WHERE` ends the query or is followed by whitespace, the query
/// is accepted.
pub proof fn ley_cabeza_select(c: Seq<char>, t: Seq<char>, resto: Seq<char>)
    requires
        nombre_simple(c),
        nombre_simple(t),
        t.len() > 0,
    ensures
        resto.len() == 0 || es_espacio(resto[0]) ==> where_y_from(consulta_select(c, t, resto)),
        partir(cabecera_select(consulta_select(c, t, resto)), clave_from()).len() >= 2,
        columnas_select(consulta_select(c, t, resto)) == c,
        nombre_select(consulta_select(c, t, resto)) == t,
{
    if resto.len() == 0 || es_espacio(resto[0]) {
        assert(consulta_select(c, t, resto) =~= clave_select() + seq![' '] + c + seq![' ']
            + clave_from() + seq![' '] + t + seq![' '] + clave_where() + resto);
        lema_consulta_aceptada(clave_select() + seq![' '] + c, t, resto);
    }
    let g = |x: char| x != '\'' && x != '(' && x != ')' && x != ' ';
    assert forall|i: int| 0 <= i < c.len() implies g(#[trigger] c[i]) by {
        assert(!es_espacio(c[i]));
    }
    assert forall|i: int| 0 <= i < t.len() implies g(#[trigger] t[i]) by {
        assert(!es_espacio(t[i]));
    }
    lema_filtro_conserva_todo(c, g);
    lema_filtro_conserva_todo(t, g);
    assert(!es_espacio(t[t.len() - 1]));
    ley_cabeza_select_general(c, t, resto);
}

/// In `DELETE FROM t WHERE ...`, where `t` is a name as written in a query, the table is
/// exactly `t`: every character of the text between `FROM` and `WHERE` is kept,
/// in order. When `WHERE` ends the query or is followed by whitespace, the query is
/// accepted.
pub proof fn ley_nombre_delete(t: Seq<char>, resto: Seq<char>)
    requires
        nombre_simple(t),
    ensures
        resto.len() == 0 || es_espacio(resto[0]) ==> where_y_from(consulta_delete(t, resto)),
        nombre_delete(consulta_delete(t, resto)) == t,
{
    if resto.len() == 0 || es_espacio(resto[0]) {
        lema_consulta_aceptada(clave_delete(), t, resto);
    }
    let h = |x: char| x != '(' && x != ')' && x != ' ';
    assert forall|i: int| 0 <= i < t.len() implies h(#[trigger] t[i]) by {
        assert(!es_espacio(t[i]));
    }
    lema_filtro_conserva_todo(t, h);
    ley_nombre_delete_general(t, resto);
}

/// A keyword is a single word.
proof fn lema_palabra_clave(k: Seq<char>)
    requires
        k.len() > 0,
        forall|i: int| 0 <= i < k.len() ==> !es_espacio(#[trigger] k[i]),
    ensures
        palabras(k) == seq![k],
{
    assert(ficha_valida(k, false));
    ley_unir_y_trocear(seq![k], false);
    assert(unir(seq![k], seq![' ']) == k);
}

/// `a FROM t WHERE` followed by nothing or by whitespace has the words `FROM` and `WHERE`.
proof fn lema_consulta_aceptada(a1: Seq<char>, t: Seq<char>, resto: Seq<char>)
    requires
        resto.len() == 0 || es_espacio(resto[0]),
    ensures
        where_y_from(
            a1 + seq![' '] + clave_from() + seq![' '] + t + seq![' '] + clave_where() + resto,
        ),
{
    let sp = seq![' '];
    let fr = clave_from();
    let wh = clave_where();
    assert(fr =~= seq!['F', 'R', 'O', 'M']);
    assert(wh =~= seq!['W', 'H', 'E', 'R', 'E']);
    lema_palabra_clave(fr);
    lema_palabra_clave(wh);
    let q = a1 + sp + fr + sp + t + sp + wh + resto;
    let b3 = wh + resto;
    let b2 = t + sp + b3;
    let b1 = fr + sp + b2;
    assert(q =~= a1 + sp + b1);
    ley_separador_corta_fichas(a1, ' ', b1, false);
    ley_separador_corta_fichas(fr, ' ', b2, false);
    ley_separador_corta_fichas(t, ' ', b3, false);
    let p3 = if resto.len() == 0 {
        Seq::<Seq<char>>::empty()
    } else {
        palabras(resto.skip(1))
    };
    assert(palabras(b3) == seq![wh] + p3) by {
        if resto.len() == 0 {
            assert(b3 =~= wh);
            assert(seq![wh] + p3 =~= seq![wh]);
        } else {
            assert(b3 =~= wh + seq![resto[0]] + resto.skip(1));
            ley_separador_corta_fichas(wh, resto[0], resto.skip(1), false);
            assert(palabras(wh) + Seq::<Seq<char>>::empty() =~= palabras(wh));
        }
    }
    let p1 = palabras(a1);
    let p2 = palabras(t);
    assert(Seq::<Seq<char>>::empty() + palabras(b1) =~= palabras(b1));
    assert(palabras(q) =~= p1 + (seq![fr] + (p2 + (seq![wh] + p3))));
    assert(palabras(q)[p1.len() as int] == fr);
    assert(palabras(q)[(p1.len() + 1 + p2.len()) as int] == wh);
}

/// Removing the quotes from each word and then reading the words one after the other is
/// reading them one after the other without the quotes.
proof fn lema_aplanar_sin_comillas(ws: Seq<Seq<char>>)
    ensures
        ws.map_values(|w: Seq<char>| quitar(w, seq!['\''])).flatten() == ws.flatten().filter(
            |c: char| c != '\'',
        ),
    decreases ws.len(),
{
    let f = |w: Seq<char>| quitar(w, seq!['\'']);
    let g = |c: char| c != '\'';
    if ws.len() == 0 {
        assert(ws.map_values(f) =~= Seq::<Seq<char>>::empty());
        assert(ws.flatten() =~= Seq::<char>::empty());
        reveal(Seq::filter);
        assert(Seq::<char>::empty().filter(g) =~= Seq::<char>::empty());
    } else {
        let v = ws.drop_last();
        let u = ws.last();
        lema_aplanar_sin_comillas(v);
        assert(v.push(u) =~= ws);
        assert(ws.map_values(f) =~= v.map_values(f).push(f(u)));
        v.map_values(f).lemma_flatten_push(f(u));
        v.lemma_flatten_push(u);
        lema_quitar_es_filtro(u, '\'');
        Seq::filter_distributes_over_add(v.flatten(), u, g);
    }
}

/// The assignments of an accepted `UPDATE`, read one after the other, are the text between
/// `SET` and `WHERE`, keeping every character but whitespace and single quotes, in order;
/// there is one assignment per word of that text.
pub proof fn ley_campos_update(q: Seq<char>)
    requires
        update_valido(q),
    ensures
        campos_update(q).len() == palabras(
            partir_una_vez(valores_update(q), clave_where()).unwrap().0,
        ).len(),
        campos_update(q).flatten() == partir_una_vez(valores_update(q), clave_where()).unwrap().0.filter(
            |c: char| no_espacio(c) && c != '\'',
        ),
{
    let x = partir_una_vez(valores_update(q), clave_where()).unwrap().0;
    ley_fichas_cubren_la_entrada(x, false);
    lema_aplanar_sin_comillas(palabras(x));
    lema_filtro_doble(x, |c: char| no_espacio(c), |c: char| c != '\'');
    assert((|c: char| no_espacio(c) && c != '\'') =~= (|c: char|
        (|c: char| no_espacio(c))(c) && (|c: char| c != '\'')(c)));
}

/// The query `UPDATE t SET` followed by `resto`.
pub open spec fn consulta_update(t: Seq<char>, resto: Seq<char>) -> Seq<char> {
    clave_update() + seq![' '] + t + seq![' '] + clave_set() + resto
}

/// In `UPDATE t SET ...`, where `t` is a name without whitespace or quotes in which
/// neither `UPDATE` nor `SET` occurs, the table is exactly `t`: every character of
/// the text between `UPDATE` and `SET` is kept, in order.
pub proof fn ley_nombre_update(t: Seq<char>, resto: Seq<char>)
    requires
        forall|i: int| 0 <= i < t.len() ==> !es_espacio(#[trigger] t[i]),
        !t.contains('\''),
        !contiene(t, clave_update()),
        !contiene(t, clave_set()),
    ensures
        nombre_update(consulta_update(t, resto)) == t,
{
    let h = |x: char| x != '\'' && x != ' ';
    assert forall|i: int| 0 <= i < t.len() implies h(#[trigger] t[i]) by {
        assert(!es_espacio(t[i]));
    }
    lema_filtro_conserva_todo(t, h);
    ley_nombre_update_general(t, resto);
}

/// An element of a row of values as an `INSERT` writes it: non-empty, without commas or
/// parentheses.
pub open spec fn elemento_simple(x: Seq<char>) -> bool {
    &&& x.len() > 0
    &&& !x.contains(',')
    &&& !x.contains('(')
    &&& !x.contains(')')
}

/// Rows of values as an `INSERT` writes them: each row's elements joined by commas and
/// put in parentheses, the rows joined by commas.
pub open spec fn valores_escritos(filas: Seq<Seq<Seq<char>>>) -> Seq<char> {
    seq!['('] + unir(
        filas.map_values(|f: Seq<Seq<char>>| unir(f, seq![','])),
        seq![')', ',', '('],
    ) + seq![')']
}

/// A row of simple elements joined by commas is non-empty and holds no parenthesis.
proof fn lema_fila_escrita(f: Seq<Seq<char>>)
    requires
        f.len() >= 1,
        forall|i: int| 0 <= i < f.len() ==> elemento_simple(#[trigger] f[i]),
    ensures
        unir(f, seq![',']).len() > 0,
        !unir(f, seq![',']).contains('('),
        !unir(f, seq![',']).contains(')'),
{
    assert forall|i: int| 0 <= i < f.len() implies (#[trigger] f[i]).len() > 0 by {
        assert(elemento_simple(f[i]));
    }
    assert forall|i: int| 0 <= i < f.len() implies !(#[trigger] f[i]).contains('(') by {
        assert(elemento_simple(f[i]));
    }
    assert forall|i: int| 0 <= i < f.len() implies !(#[trigger] f[i]).contains(')') by {
        assert(elemento_simple(f[i]));
    }
    lema_unir_extremos(f, seq![',']);
    lema_unir_conserva(f, seq![','], '(');
    lema_unir_conserva(f, seq![','], ')');
}

/// Every `)` of `s` but a last one is followed by a comma.
pub open spec fn cierres_seguidos_de_coma(s: Seq<char>) -> bool {
    forall|i: int| 0 <= i < s.len() - 1 && #[trigger] s[i] == ')' ==> s[i + 1] == ','
}

/// In rows without `)` joined by `),(`, every `)` is followed by a comma, and the last
/// character is no `)`.
proof fn lema_cierres_de_filas(rs: Seq<Seq<char>>)
    requires
        rs.len() >= 1,
        forall|k: int| 0 <= k < rs.len() ==> (#[trigger] rs[k]).len() > 0,
        forall|k: int| 0 <= k < rs.len() ==> !(#[trigger] rs[k]).contains(')'),
    ensures
        cierres_seguidos_de_coma(unir(rs, seq![')', ',', '('])),
        unir(rs, seq![')', ',', '(']).last() != ')',
    decreases rs.len(),
{
    let sep = seq![')', ',', '('];
    let j = unir(rs, sep);
    lema_unir_extremos(rs, sep);
    assert(!rs[rs.len() - 1].contains(')'));
    assert(rs.last().len() > 0);
    assert(rs.last().last() != ')') by {
        if rs.last().last() == ')' {
            assert(rs.last()[rs.last().len() - 1] == ')');
        }
    }
    if rs.len() == 1 {
        assert(!rs[0].contains(')'));
        assert forall|i: int| 0 <= i < j.len() - 1 && #[trigger] j[i] == ')' implies j[i + 1] == ',' by {
            assert(rs[0][i] == ')');
        }
    } else {
        let v = rs.drop_last();
        let w = rs.last();
        assert forall|k: int| 0 <= k < v.len() implies (#[trigger] v[k]).len() > 0 by {
            assert(v[k] == rs[k]);
        }
        assert forall|k: int| 0 <= k < v.len() implies !(#[trigger] v[k]).contains(')') by {
            assert(v[k] == rs[k]);
        }
        lema_cierres_de_filas(v);
        let a = unir(v, sep);
        lema_unir_extremos(v, sep);
        assert(j == a + sep + w);
        assert(a.last() != ')');
        assert(!w.contains(')'));
        assert forall|i: int| 0 <= i < j.len() - 1 && #[trigger] j[i] == ')' implies j[i + 1] == ',' by {
            if i < a.len() - 1 {
                assert(j[i] == a[i]);
                assert(a[i] == ')');
                assert(j[i + 1] == a[i + 1]);
            } else if i == a.len() - 1 {
                assert(j[i] == a.last());
            } else if i < a.len() + 3 {
                assert(j[i] == sep[i - a.len()]);
            } else {
                assert(j[i] == w[i - a.len() - 3]);
            }
        }
    }
}

/// Rows without `)` joined by `),(` split back into the rows at each `),(`.
proof fn lema_partir_filas(rs: Seq<Seq<char>>)
    requires
        rs.len() >= 1,
        forall|k: int| 0 <= k < rs.len() ==> !(#[trigger] rs[k]).contains(')'),
    ensures
        partir(unir(rs, seq![')', ',', '(']), seq![')', ',', '(']) == rs,
    decreases rs.len(),
{
    let sep = seq![')', ',', '('];
    assert(!rs[0].contains(')'));
    if rs.len() == 1 {
        lema_no_contiene_por_inicial(rs[0], sep);
        lema_partir_sin_patron(rs[0], sep);
        assert(seq![rs[0]] =~= rs);
    } else {
        let x = seq![rs[0]];
        let y = rs.skip(1);
        assert(x + y =~= rs);
        assert forall|k: int| 0 <= k < y.len() implies !(#[trigger] y[k]).contains(')') by {
            assert(y[k] == rs[k + 1]);
        }
        lema_partir_filas(y);
        lema_unir_concat(x, y, sep);
        assert(unir(x, sep) == rs[0]);
        let u = unir(y, sep);
        let t = rs[0] + sep + u;
        assert forall|i: int| 0 <= i < rs[0].len() implies !#[trigger] empieza_con(t.skip(i), sep) by {
            if empieza_con(t.skip(i), sep) {
                assert(t.skip(i).take(3)[0] == rs[0][i]);
            }
        }
        lema_partir_primera(rs[0], sep, u);
    }
}

/// Rows of simple elements written as an `INSERT` writes them are read back as they were:
/// the rows of values are exactly the given rows, each with exactly its elements, in order.
pub proof fn ley_filas_de_valores(filas: Seq<Seq<Seq<char>>>)
    requires
        filas.len() >= 1,
        forall|k: int| 0 <= k < filas.len() ==> (#[trigger] filas[k]).len() >= 1,
        forall|k: int, i: int|
            0 <= k < filas.len() && 0 <= i < filas[k].len() ==> elemento_simple(
                #[trigger] filas[k][i],
            ),
    ensures
        filas_de_valores(valores_escritos(filas)) == filas,
{
    let sep = seq![')', ',', '('];
    let coma = seq![','];
    let rs = filas.map_values(|f: Seq<Seq<char>>| unir(f, seq![',']));
    assert forall|k: int| 0 <= k < rs.len() implies {
        &&& (#[trigger] rs[k]).len() > 0
        &&& !rs[k].contains('(')
        &&& !rs[k].contains(')')
    } by {
        assert(filas[k].len() >= 1);
        assert forall|i: int| 0 <= i < filas[k].len() implies elemento_simple(
            #[trigger] filas[k][i],
        ) by {}
        lema_fila_escrita(filas[k]);
    }
    let j = unir(rs, sep);
    lema_unir_extremos(rs, sep);
    lema_cierres_de_filas(rs);
    assert(!es_parentesis(j[0])) by {
        assert(j[0] == rs[0][0]);
        assert(!rs[0].contains('(') && !rs[0].contains(')'));
        assert(rs[0].len() > 0);
    }
    assert(!es_parentesis(j.last())) by {
        let n = rs.len() - 1;
        assert(rs.last() == rs[n]);
        assert(!rs[n].contains('(') && !rs[n].contains(')'));
        assert(rs[n].len() > 0);
        assert(j.last() == rs[n][rs[n].len() - 1]);
    }
    let v = valores_escritos(filas);
    assert(v == seq!['('] + j + seq![')']);
    // no `)(` in the written values
    let juntos = seq![')', '('];
    assert forall|i: int| 0 <= i < v.len() implies !#[trigger] empieza_con(v.skip(i), juntos) by {
        if empieza_con(v.skip(i), juntos) {
            assert(v.skip(i).take(2)[0] == v[i]);
            assert(v.skip(i).take(2)[1] == v[i + 1]);
            if i == 0 {
            } else if i - 1 < j.len() - 1 {
                assert(v[i] == j[i - 1]);
                assert(v[i + 1] == j[i]);
                assert(j[i - 1] == ')');
            } else {
                assert(v[i] == j[i - 1]);
            }
        }
    }
    lema_reemplazar_sin_patron(v, juntos, sep);
    // the parentheses at both ends
    let abre_j = seq!['('] + j;
    assert(v.drop_last() =~= abre_j);
    assert(es_parentesis(v.last()));
    assert(abre_j.last() == j.last());
    assert(sin_parentesis_fin(abre_j) == abre_j);
    assert(sin_parentesis_fin(v) == abre_j);
    assert(abre_j.skip(1) =~= j);
    assert(sin_parentesis_inicio(j) == j);
    assert(sin_parentesis_inicio(abre_j) == j);
    assert(recortar_parentesis(v) == j);
    // splitting rows and elements
    assert forall|k: int| 0 <= k < rs.len() implies !(#[trigger] rs[k]).contains(')') by {}
    lema_partir_filas(rs);
    assert forall|k: int| 0 <= k < rs.len() implies partir(#[trigger] rs[k], coma) == filas[k] by {
        assert(filas[k].len() >= 1);
        assert forall|i: int| 0 <= i < filas[k].len() implies !(#[trigger] filas[k][i]).contains(',') by {
            assert(elemento_simple(filas[k][i]));
        }
        lema_partir_unir_comas(filas[k]);
    }
    assert(filas_de_valores(v) =~= filas);
}

/// Trimming a character from the end of `x` then `b` only trims `b`, when something of
/// `b` stays.
proof fn lema_recortar_final_concat(x: Seq<char>, b: Seq<char>, c: char)
    requires
        recortar_final(b, c).len() > 0,
    ensures
        recortar_final(x + b, c) == x + recortar_final(b, c),
    decreases b.len(),
{
    assert(b.len() > 0);
    assert((x + b).last() == b.last());
    if b.last() == c {
        assert((x + b).drop_last() =~= x + b.drop_last());
        lema_recortar_final_concat(x, b.drop_last(), c);
    }
}

/// The query `UPDATE t SET a WHERE b`.
pub open spec fn consulta_update_completa(t: Seq<char>, a: Seq<char>, b: Seq<char>) -> Seq<char> {
    consulta_update(t, seq![' '] + a + seq![' '] + clave_where() + seq![' '] + b)
}

/// `UPDATE t SET a WHERE b`, with `t` a table name as `ley_nombre_update` takes it, `a`
/// starting with no whitespace and holding neither `SET` nor `WHERE`, and `b` holding no
/// `SET`, ending with no whitespace and not made of `;` alone, is accepted: the table is
/// `t`, the assignments are the words of `a` without their quotes, and the conditions are
/// the tokens of `b` without its trailing `;`.
pub proof fn ley_update_completo(t: Seq<char>, a: Seq<char>, b: Seq<char>)
    requires
        forall|i: int| 0 <= i < t.len() ==> !es_espacio(#[trigger] t[i]),
        !t.contains('\''),
        !contiene(t, clave_update()),
        !contiene(t, clave_set()),
        a.len() > 0,
        !es_espacio(a[0]),
        !contiene(a, clave_set()),
        !contiene(a, clave_where()),
        b.len() > 0,
        !es_espacio(b.last()),
        recortar_final(b, ';').len() > 0,
        !contiene(b, clave_set()),
    ensures
        update_valido(consulta_update_completa(t, a, b)),
        nombre_update(consulta_update_completa(t, a, b)) == t,
        campos_update(consulta_update_completa(t, a, b)) == palabras(a).map_values(
            |w: Seq<char>| quitar(w, seq!['\'']),
        ),
        condiciones_update(consulta_update_completa(t, a, b)) == fichas(
            recortar_final(b, ';'),
            true,
        ),
{
    let sp = seq![' '];
    let e = Seq::<char>::empty();
    let up = clave_update();
    let st = clave_set();
    let wh = clave_where();
    let resto = sp + a + sp + wh + sp + b;
    let q = consulta_update_completa(t, a, b);
    ley_nombre_update(t, resto);
    assert(st =~= seq!['S', 'E', 'T']);
    assert(wh =~= seq!['W', 'H', 'E', 'R', 'E']);
    assert(up =~= seq!['U', 'P', 'D', 'A', 'T', 'E']);
    assert(!st.contains(' '));
    assert(!wh.contains(' '));
    assert(!t.contains(' ')) by {
        if t.contains(' ') {
            let j = choose|j: int| 0 <= j < t.len() && t[j] == ' ';
            assert(!es_espacio(t[j]));
        }
    }
    // the words SET and WHERE
    lema_palabra_clave(st);
    lema_palabra_clave(wh);
    let a1 = up + sp + t;
    let b4 = wh + sp + b;
    let b3 = a + sp + b4;
    let b2 = st + sp + b3;
    assert(q =~= a1 + sp + b2);
    ley_separador_corta_fichas(a1, ' ', b2, false);
    ley_separador_corta_fichas(st, ' ', b3, false);
    ley_separador_corta_fichas(a, ' ', b4, false);
    ley_separador_corta_fichas(wh, ' ', b, false);
    let p1 = palabras(a1);
    let p2 = palabras(a);
    assert(palabras(q) =~= p1 + (seq![st] + (p2 + (seq![wh] + palabras(b)))));
    assert(palabras(q)[p1.len() as int] == st);
    assert(palabras(q)[(p1.len() + 1 + p2.len()) as int] == wh);
    // the text after SET
    let x = up + sp + t + sp;
    assert(!contiene(up + sp + t, st)) by {
        lema_no_contiene_por_inicial(up, st);
        if contiene(up + sp + t, st) {
            lema_contiene_por_espacio(up, t, st);
        }
    }
    assert(!contiene(x, st)) by {
        if contiene(x, st) {
            assert(x =~= (up + sp + t) + sp + e);
            lema_no_contiene_vacio(st);
            lema_contiene_por_espacio(up + sp + t, e, st);
        }
    }
    assert(q =~= x + st + resto);
    lema_antes_de_clave(x, st, resto);
    let partes = seq![e, a, wh, b];
    assert(partes.drop_last().drop_last().drop_last() =~= seq![e]);
    assert(partes.drop_last().drop_last() =~= seq![e, a]);
    assert(partes.drop_last() =~= seq![e, a, wh]);
    assert(unir(seq![e], sp) == e);
    assert(unir(seq![e, a], sp) =~= sp + a);
    assert(unir(seq![e, a, wh], sp) =~= sp + a + sp + wh);
    assert(unir(partes, sp) =~= resto);
    lema_no_contiene_por_inicial(wh, st);
    lema_no_contiene_vacio(st);
    assert forall|i: int| 0 <= i < partes.len() implies !contiene(#[trigger] partes[i], st) by {
        if i == 0 {
        } else if i == 1 {
        } else if i == 2 {
        } else {
        }
    }
    lema_unir_sin_patron(partes, st);
    lema_partir_sin_patron(resto, st);
    assert(tras_set(q) == resto);
    // trimming
    let cuerpo = a + sp + wh + sp + b;
    assert(resto =~= sp + cuerpo);
    assert(resto.last() == b.last());
    assert(recortar_fin(resto) == resto);
    assert(resto.skip(1) =~= cuerpo);
    assert(cuerpo[0] == a[0]);
    assert(recortar_inicio(cuerpo) == cuerpo);
    assert(recortar_inicio(resto) == cuerpo);
    let b1 = recortar_final(b, ';');
    lema_recortar_final_concat(a + sp + wh + sp, b, ';');
    assert(a + sp + wh + sp + b =~= cuerpo);
    let v = (a + sp) + wh + (sp + b1);
    assert(valores_update(q) =~= v);
    // splitting at WHERE
    assert(!contiene(a + sp, wh)) by {
        if contiene(a + sp, wh) {
            assert(a + sp =~= a + sp + e);
            lema_no_contiene_vacio(wh);
            lema_contiene_por_espacio(a, e, wh);
        }
    }
    lema_antes_de_clave(a + sp, wh, sp + b1);
    lema_partir_no_vacio(sp + b1, wh);
    assert(partir(v, wh).len() >= 2);
    assert(v.skip((a.len() + 1 + wh.len()) as int) =~= sp + b1);
    assert(partir_una_vez(v, wh) == Some((a + sp, sp + b1)));
    // the assignments and the conditions
    assert((a + sp).drop_last() =~= a);
    assert(palabras(a + sp) == palabras(a));
    ley_separador_corta_fichas(e, ' ', b1, true);
    assert(e + sp + b1 =~= sp + b1);
    assert(fichas(e, true) + Seq::<Seq<char>>::empty() + fichas(b1, true) =~= fichas(b1, true));
}

/// `s` without spaces, single quotes and parentheses: every other character kept, in order.
pub open spec fn sin_adornos(s: Seq<char>) -> Seq<char> {
    s.filter(|x: char| x != '\'' && x != '(' && x != ')' && x != ' ')
}

/// Filtering keeps all of a text whose characters all pass.
proof fn lema_filtro_conserva_todo(s: Seq<char>, p: spec_fn(char) -> bool)
    requires
        forall|i: int| 0 <= i < s.len() ==> p(#[trigger] s[i]),
    ensures
        s.filter(p) == s,
    decreases s.len(),
{
    reveal(Seq::filter);
    if s.len() > 0 {
        let d = s.drop_last();
        assert forall|i: int| 0 <= i < d.len() implies p(#[trigger] d[i]) by {
            assert(d[i] == s[i]);
        }
        lema_filtro_conserva_todo(d, p);
        assert(p(s[s.len() - 1]));
        assert(d.push(s.last()) =~= s);
    }
}

/// Filtering keeps nothing of a text whose characters all fail.
proof fn lema_filtro_quita_todo(s: Seq<char>, p: spec_fn(char) -> bool)
    requires
        forall|i: int| 0 <= i < s.len() ==> !p(#[trigger] s[i]),
    ensures
        s.filter(p) == Seq::<char>::empty(),
    decreases s.len(),
{
    reveal(Seq::filter);
    if s.len() > 0 {
        let d = s.drop_last();
        assert forall|i: int| 0 <= i < d.len() implies !p(#[trigger] d[i]) by {
            assert(d[i] == s[i]);
        }
        lema_filtro_quita_todo(d, p);
        assert(!p(s[s.len() - 1]));
    }
    assert(s.filter(p) =~= Seq::<char>::empty());
}

/// Text whose only whitespace is plain spaces has no whitespace left once its spaces,
/// quotes and parentheses are removed, and none of those characters either.
proof fn lema_sin_adornos_limpio(s: Seq<char>)
    requires
        forall|i: int| 0 <= i < s.len() && es_espacio(#[trigger] s[i]) ==> s[i] == ' ',
    ensures
        forall|i: int| 0 <= i < sin_adornos(s).len() ==> !es_espacio(#[trigger] sin_adornos(s)[i]),
        !sin_adornos(s).contains(' '),
        !sin_adornos(s).contains('('),
        !sin_adornos(s).contains(')'),
{
    let g = |x: char| x != '\'' && x != '(' && x != ')' && x != ' ';
    let f = s.filter(g);
    assert forall|i: int| 0 <= i < f.len() implies !es_espacio(#[trigger] f[i]) by {
        s.lemma_filter_pred(g, i);
        assert(f.contains(f[i]));
        s.lemma_filter_contains_rev(g, f[i]);
        let j = choose|j: int| 0 <= j < s.len() && s[j] == f[i];
        assert(es_espacio(s[j]) ==> s[j] == ' ');
    }
    assert forall|d: char| (d == ' ' || d == '(' || d == ')') implies !f.contains(d) by {
        if f.contains(d) {
            let i = choose|i: int| 0 <= i < f.len() && f[i] == d;
            s.lemma_filter_pred(g, i);
        }
    }
}

/// In `SELECT c FROM t WHERE ...`, where the only whitespace of `c` and `t` is plain
/// spaces, neither holds `SELECT` or `WHERE`, `FROM` does not appear once their spaces,
/// quotes and parentheses are gone, and `t` ends with no whitespace: the columns are `c`
/// and the table is `t`, each with only its spaces, single quotes and parentheses removed,
/// every other character kept in order.
pub proof fn ley_cabeza_select_general(c: Seq<char>, t: Seq<char>, resto: Seq<char>)
    requires
        forall|i: int| 0 <= i < c.len() && es_espacio(#[trigger] c[i]) ==> c[i] == ' ',
        forall|i: int| 0 <= i < t.len() && es_espacio(#[trigger] t[i]) ==> t[i] == ' ',
        !contiene(c, clave_select()),
        !contiene(c, clave_where()),
        !contiene(sin_adornos(c), clave_from()),
        t.len() > 0,
        !es_espacio(t.last()),
        !contiene(t, clave_select()),
        !contiene(t, clave_where()),
        !contiene(sin_adornos(t), clave_from()),
    ensures
        partir(cabecera_select(consulta_select(c, t, resto)), clave_from()).len() >= 2,
        columnas_select(consulta_select(c, t, resto)) == sin_adornos(c),
        nombre_select(consulta_select(c, t, resto)) == sin_adornos(t),
{
    let sp = seq![' '];
    let e = Seq::<char>::empty();
    let sel = clave_select();
    let fr = clave_from();
    let wh = clave_where();
    lema_claves_sin_espacio();
    assert(sel =~= seq!['S', 'E', 'L', 'E', 'C', 'T']);
    assert(fr =~= seq!['F', 'R', 'O', 'M']);
    // the part before WHERE
    let partes = seq![sel, c, fr, t];
    let y = sel + sp + c + sp + fr + sp + t;
    assert(partes.drop_last().drop_last().drop_last() =~= seq![sel]);
    assert(partes.drop_last().drop_last() =~= seq![sel, c]);
    assert(partes.drop_last() =~= seq![sel, c, fr]);
    assert(unir(seq![sel], sp) == sel);
    assert(unir(seq![sel, c], sp) == sel + sp + c);
    assert(unir(seq![sel, c, fr], sp) == sel + sp + c + sp + fr);
    assert(unir(partes, sp) == y);
    assert forall|i: int| 0 <= i < partes.len() implies !contiene(#[trigger] partes[i], wh) by {
        if i == 0 {
        } else if i == 1 {
        } else if i == 2 {
        } else {
        }
    }
    lema_unir_sin_patron(partes, wh);
    let x = y + sp;
    assert(!contiene(x, wh)) by {
        if contiene(x, wh) {
            assert(x =~= y + sp + e);
            lema_contiene_por_espacio(y, e, wh);
            lema_no_contiene_vacio(wh);
        }
    }
    assert(consulta_select(c, t, resto) =~= x + wh + resto);
    lema_antes_de_clave(x, wh, resto);
    // trimming
    assert(x.drop_last() =~= y);
    assert(y.last() == t.last());
    assert(recortar_fin(x) == recortar_fin(y));
    assert(recortar_fin(y) == y);
    assert(y[0] == 'S');
    assert(recortar_inicio(y) == y);
    // removing SELECT
    let z = sp + c + sp + fr + sp + t;
    assert(y =~= sel + z);
    assert(y.take(6) =~= sel);
    assert(y.skip(6) =~= z);
    let zpartes = seq![e, c, fr, t];
    assert(zpartes.drop_last().drop_last().drop_last() =~= seq![e]);
    assert(zpartes.drop_last().drop_last() =~= seq![e, c]);
    assert(zpartes.drop_last() =~= seq![e, c, fr]);
    assert(unir(seq![e], sp) == e);
    assert(unir(seq![e, c], sp) =~= sp + c);
    assert(unir(seq![e, c, fr], sp) =~= sp + c + sp + fr);
    assert(unir(zpartes, sp) =~= z);
    assert forall|i: int| 0 <= i < zpartes.len() implies !contiene(#[trigger] zpartes[i], sel) by {
        if i == 0 {
            lema_no_contiene_vacio(sel);
        } else if i == 2 {
            lema_no_contiene_por_inicial(fr, sel);
        }
    }
    lema_unir_sin_patron(zpartes, sel);
    lema_quitar_sin_patron(z, sel);
    assert(quitar(y, sel) == z);
    // removing quotes, parentheses and spaces is one filter
    let f1 = |x: char| x != '\'';
    let f2 = |x: char| x != '(';
    let f3 = |x: char| x != ')';
    let f4 = |x: char| x != ' ';
    let g = |x: char| x != '\'' && x != '(' && x != ')' && x != ' ';
    let h12 = |x: char| f1(x) && f2(x);
    let h123 = |x: char| h12(x) && f3(x);
    lema_quitar_es_filtro(z, '\'');
    lema_quitar_es_filtro(z.filter(f1), '(');
    lema_quitar_es_filtro(z.filter(f1).filter(f2), ')');
    lema_quitar_es_filtro(z.filter(f1).filter(f2).filter(f3), ' ');
    lema_filtro_doble(z, f1, f2);
    lema_filtro_doble(z, h12, f3);
    lema_filtro_doble(z, h123, f4);
    assert((|x: char| h123(x) && f4(x)) =~= g);
    assert(cabecera_select(consulta_select(c, t, resto)) == z.filter(g));
    // the filter goes piece by piece
    lema_filtro_quita_todo(sp, g);
    lema_filtro_conserva_todo(fr, g);
    Seq::filter_distributes_over_add(sp + c + sp + fr + sp, t, g);
    Seq::filter_distributes_over_add(sp + c + sp + fr, sp, g);
    Seq::filter_distributes_over_add(sp + c + sp, fr, g);
    Seq::filter_distributes_over_add(sp + c, sp, g);
    Seq::filter_distributes_over_add(sp, c, g);
    assert(z.filter(g) =~= sin_adornos(c) + fr + sin_adornos(t));
    // splitting at FROM, and what is left of each side
    lema_partir_cabecera(sin_adornos(c), sin_adornos(t));
    lema_sin_adornos_limpio(c);
    lema_sin_adornos_limpio(t);
    lema_recortar_sin_espacios(sin_adornos(c));
    lema_recortar_sin_espacios(sin_adornos(t));
    lema_quitar_ausente(sin_adornos(c), ' ');
    lema_quitar_ausente(sin_adornos(c), '(');
    lema_quitar_ausente(sin_adornos(c), ')');
    lema_quitar_ausente(sin_adornos(t), ' ');
}

/// Removing characters that include the plain space gives the same from a text and from
/// its trim, when its only whitespace is plain spaces.
proof fn lema_filtro_tras_recortar(s: Seq<char>, g: spec_fn(char) -> bool)
    requires
        forall|i: int| 0 <= i < s.len() && es_espacio(#[trigger] s[i]) ==> s[i] == ' ',
        !g(' '),
    ensures
        recortar(s).filter(g) == s.filter(g),
{
    lema_filtro_tras_recortar_fin(s, g);
    assert forall|i: int| 0 <= i < recortar_fin(s).len() && es_espacio(#[trigger] recortar_fin(
        s,
    )[i]) implies recortar_fin(s)[i] == ' ' by {
        lema_recortar_fin_prefijo(s, i);
    }
    lema_filtro_tras_recortar_inicio(recortar_fin(s), g);
}

/// A character of the trimmed end is the character of the text at the same place.
proof fn lema_recortar_fin_prefijo(s: Seq<char>, i: int)
    requires
        0 <= i < recortar_fin(s).len(),
    ensures
        i < s.len(),
        recortar_fin(s)[i] == s[i],
    decreases s.len(),
{
    if s.len() > 0 && es_espacio(s.last()) {
        lema_recortar_fin_prefijo(s.drop_last(), i);
    }
}

proof fn lema_filtro_tras_recortar_fin(s: Seq<char>, g: spec_fn(char) -> bool)
    requires
        forall|i: int| 0 <= i < s.len() && es_espacio(#[trigger] s[i]) ==> s[i] == ' ',
        !g(' '),
    ensures
        recortar_fin(s).filter(g) == s.filter(g),
    decreases s.len(),
{
    reveal(Seq::filter);
    if s.len() > 0 && es_espacio(s.last()) {
        let d = s.drop_last();
        assert forall|i: int| 0 <= i < d.len() && es_espacio(#[trigger] d[i]) implies d[i] == ' ' by {
            assert(d[i] == s[i]);
        }
        lema_filtro_tras_recortar_fin(d, g);
        assert(s[s.len() - 1] == ' ');
        assert(s.filter(g) == d.filter(g));
    }
}

proof fn lema_filtro_tras_recortar_inicio(s: Seq<char>, g: spec_fn(char) -> bool)
    requires
        forall|i: int| 0 <= i < s.len() && es_espacio(#[trigger] s[i]) ==> s[i] == ' ',
        !g(' '),
    ensures
        recortar_inicio(s).filter(g) == s.filter(g),
    decreases s.len(),
{
    if s.len() > 0 && es_espacio(s[0]) {
        let d = s.skip(1);
        assert forall|i: int| 0 <= i < d.len() && es_espacio(#[trigger] d[i]) implies d[i] == ' ' by {
            assert(d[i] == s[i + 1]);
        }
        lema_filtro_tras_recortar_inicio(d, g);
        assert(s[0] == ' ');
        assert(seq![s[0]] + d =~= s);
        lema_filtro_quita_todo(seq![s[0]], g);
        Seq::filter_distributes_over_add(seq![s[0]], d, g);
        assert(Seq::<char>::empty() + d.filter(g) =~= d.filter(g));
    }
}

/// `s` without parentheses and spaces: every other character kept, in order.
pub open spec fn sin_parentesis_ni_espacios(s: Seq<char>) -> Seq<char> {
    s.filter(|x: char| x != '(' && x != ')' && x != ' ')
}

/// In `DELETE FROM t WHERE ...`, where the only whitespace of `t` is plain spaces and none
/// of `DELETE`, `FROM`, `WHERE` occurs in `t`, the table is `t` with only its parentheses
/// and spaces removed, every other character kept in order.
pub proof fn ley_nombre_delete_general(t: Seq<char>, resto: Seq<char>)
    requires
        forall|i: int| 0 <= i < t.len() && es_espacio(#[trigger] t[i]) ==> t[i] == ' ',
        !contiene(t, clave_delete()),
        !contiene(t, clave_from()),
        !contiene(t, clave_where()),
    ensures
        nombre_delete(consulta_delete(t, resto)) == sin_parentesis_ni_espacios(t),
{
    let sp = seq![' '];
    let dl = clave_delete();
    let fr = clave_from();
    let e = Seq::<char>::empty();
    lema_claves_sin_espacio();
    assert(dl =~= seq!['D', 'E', 'L', 'E', 'T', 'E']);
    assert(fr =~= seq!['F', 'R', 'O', 'M']);
    // the part before WHERE
    let partes = seq![dl, fr, t];
    let y = dl + sp + fr + sp + t;
    assert(partes.drop_last().drop_last() =~= seq![dl]);
    assert(partes.drop_last() =~= seq![dl, fr]);
    assert(unir(seq![dl], sp) == dl);
    assert(unir(seq![dl, fr], sp) == dl + sp + fr);
    assert(unir(partes, sp) == y);
    assert forall|i: int| 0 <= i < partes.len() implies !contiene(#[trigger] partes[i], clave_where()) by {
        if i == 0 {
        } else if i == 1 {
        } else {
        }
    }
    lema_unir_sin_patron(partes, clave_where());
    let x = y + sp;
    assert(!contiene(x, clave_where())) by {
        if contiene(x, clave_where()) {
            assert(x =~= y + sp + e);
            lema_contiene_por_espacio(y, e, clave_where());
            lema_no_contiene_vacio(clave_where());
        }
    }
    assert(consulta_delete(t, resto) =~= x + clave_where() + resto);
    lema_antes_de_clave(x, clave_where(), resto);
    // removing DELETE
    let w = sp + t + sp;
    let z = sp + fr + w;
    assert(x =~= dl + z);
    assert(x.take(6) =~= dl);
    assert(x.skip(6) =~= z);
    assert(empieza_con(x, dl));
    let zpartes = seq![e, fr, t, e];
    assert(zpartes.drop_last().drop_last().drop_last() =~= seq![e]);
    assert(zpartes.drop_last().drop_last() =~= seq![e, fr]);
    assert(zpartes.drop_last() =~= seq![e, fr, t]);
    assert(unir(seq![e], sp) == e);
    assert(unir(seq![e, fr], sp) =~= sp + fr);
    assert(unir(seq![e, fr, t], sp) =~= sp + fr + sp + t);
    assert(unir(zpartes, sp) =~= z);
    assert forall|i: int| 0 <= i < zpartes.len() implies !contiene(#[trigger] zpartes[i], dl) by {
        if i == 0 || i == 3 {
            lema_no_contiene_vacio(dl);
        }
    }
    lema_unir_sin_patron(zpartes, dl);
    lema_quitar_sin_patron(z, dl);
    assert(quitar(x, dl) == z);
    // removing FROM
    assert(z.take(4)[0] == ' ');
    assert(!empieza_con(z, fr));
    assert(z[0] == ' ');
    assert(z.skip(1) =~= fr + w);
    assert((fr + w).take(4) =~= fr);
    assert((fr + w).skip(4) =~= w);
    assert(empieza_con(fr + w, fr));
    let wpartes = seq![e, t, e];
    assert(wpartes.drop_last().drop_last() =~= seq![e]);
    assert(wpartes.drop_last() =~= seq![e, t]);
    assert(unir(seq![e, t], sp) =~= sp + t);
    assert(unir(wpartes, sp) =~= w);
    assert forall|i: int| 0 <= i < wpartes.len() implies !contiene(#[trigger] wpartes[i], fr) by {
        if i == 0 || i == 2 {
            lema_no_contiene_vacio(fr);
        }
    }
    lema_unir_sin_patron(wpartes, fr);
    lema_quitar_sin_patron(w, fr);
    assert(quitar(fr + w, fr) == w);
    let v = sp + w;
    assert(quitar(z, fr) =~= v);
    // trimming and removing parentheses and spaces
    let f1 = |x: char| x != '(';
    let f2 = |x: char| x != ')';
    let f3 = |x: char| x != ' ';
    let h = |x: char| x != '(' && x != ')' && x != ' ';
    let h12 = |x: char| f1(x) && f2(x);
    let r = recortar(v);
    lema_quitar_es_filtro(r, '(');
    lema_quitar_es_filtro(r.filter(f1), ')');
    lema_quitar_es_filtro(r.filter(f1).filter(f2), ' ');
    lema_filtro_doble(r, f1, f2);
    lema_filtro_doble(r, h12, f3);
    assert((|x: char| h12(x) && f3(x)) =~= h);
    assert(nombre_delete(consulta_delete(t, resto)) == r.filter(h));
    assert forall|i: int| 0 <= i < v.len() && es_espacio(#[trigger] v[i]) implies v[i] == ' ' by {
        if 2 <= i < v.len() - 1 {
            assert(v[i] == t[i - 2]);
        }
    }
    lema_filtro_tras_recortar(v, h);
    lema_filtro_quita_todo(sp, h);
    Seq::filter_distributes_over_add(sp + sp + t, sp, h);
    Seq::filter_distributes_over_add(sp + sp, t, h);
    Seq::filter_distributes_over_add(sp, sp, h);
    assert(v =~= sp + sp + t + sp);
    assert(v.filter(h) =~= t.filter(h));
}

/// Trimming the end of `a` then `b`, where `a` ends with no whitespace, only trims `b`.
proof fn lema_recortar_fin_concat(a: Seq<char>, b: Seq<char>)
    requires
        a.len() > 0,
        !es_espacio(a.last()),
    ensures
        recortar_fin(a + b) == a + recortar_fin(b),
    decreases b.len(),
{
    if b.len() == 0 {
        assert(a + b =~= a);
        assert(a + recortar_fin(b) =~= a);
    } else {
        assert((a + b).last() == b.last());
        if es_espacio(b.last()) {
            assert((a + b).drop_last() =~= a + b.drop_last());
            lema_recortar_fin_concat(a, b.drop_last());
        }
    }
}

/// `s` without single quotes and spaces: every other character kept, in order.
pub open spec fn sin_comillas_ni_espacios(s: Seq<char>) -> Seq<char> {
    s.filter(|x: char| x != '\'' && x != ' ')
}

/// In `UPDATE t SET ...`, where the only whitespace of `t` is plain spaces and neither
/// `UPDATE` nor `SET` occurs in `t`, the table is `t` with only its single quotes and
/// spaces removed, every other character kept in order.
pub proof fn ley_nombre_update_general(t: Seq<char>, resto: Seq<char>)
    requires
        forall|i: int| 0 <= i < t.len() && es_espacio(#[trigger] t[i]) ==> t[i] == ' ',
        !contiene(t, clave_update()),
        !contiene(t, clave_set()),
    ensures
        nombre_update(consulta_update(t, resto)) == sin_comillas_ni_espacios(t),
{
    let sp = seq![' '];
    let up = clave_update();
    let st = clave_set();
    let e = Seq::<char>::empty();
    assert(!st.contains(' ')) by {
        assert(st =~= seq!['S', 'E', 'T']);
    }
    assert(up =~= seq!['U', 'P', 'D', 'A', 'T', 'E']);
    lema_no_contiene_por_inicial(up, st);
    lema_no_contiene_vacio(st);
    lema_no_contiene_vacio(up);
    // the part before SET
    let y = up + sp + t;
    let x = y + sp;
    assert(!contiene(y, st)) by {
        if contiene(y, st) {
            lema_contiene_por_espacio(up, t, st);
        }
    }
    assert(!contiene(x, st)) by {
        if contiene(x, st) {
            assert(x =~= y + sp + e);
            lema_contiene_por_espacio(y, e, st);
        }
    }
    assert(consulta_update(t, resto) =~= x + st + resto);
    lema_antes_de_clave(x, st, resto);
    // trimming
    let w = sp + t + sp;
    let m = recortar_fin(w);
    assert(x =~= up + w);
    lema_recortar_fin_concat(up, w);
    assert((up + m)[0] == 'U');
    assert(recortar_inicio(up + m) == up + m);
    assert(recortar(x) == up + m);
    // removing UPDATE
    assert((up + m).take(6) =~= up);
    assert((up + m).skip(6) =~= m);
    assert(empieza_con(up + m, up));
    let wpartes = seq![e, t, e];
    assert(wpartes.drop_last().drop_last() =~= seq![e]);
    assert(wpartes.drop_last() =~= seq![e, t]);
    assert(unir(seq![e], sp) == e);
    assert(unir(seq![e, t], sp) =~= sp + t);
    assert(unir(wpartes, sp) =~= w);
    assert(!up.contains(' '));
    assert forall|i: int| 0 <= i < wpartes.len() implies !contiene(#[trigger] wpartes[i], up) by {
        if i == 1 {
        }
    }
    lema_unir_sin_patron(wpartes, up);
    assert(!contiene(m, up)) by {
        if contiene(m, up) {
            let i = choose|i: int| 0 <= i <= m.len() && #[trigger] empieza_con(m.skip(i), up);
            assert(m.len() >= i + 6);
            lema_recortar_fin_prefijo(w, i + 5);
            assert forall|k: int| 0 <= k < 6 implies w.skip(i).take(6)[k] == m.skip(i).take(6)[k] by {
                lema_recortar_fin_prefijo(w, i + k);
                assert(m.skip(i).take(6)[k] == m[i + k]);
                assert(w.skip(i).take(6)[k] == w[i + k]);
            }
            assert(w.skip(i).take(6) =~= m.skip(i).take(6));
            assert(empieza_con(w.skip(i), up));
        }
    }
    lema_quitar_sin_patron(m, up);
    assert(quitar(recortar(x), up) == m);
    // removing quotes and spaces
    let f1 = |x: char| x != '\'';
    let f2 = |x: char| x != ' ';
    let h = |x: char| x != '\'' && x != ' ';
    lema_quitar_es_filtro(m, '\'');
    lema_quitar_es_filtro(m.filter(f1), ' ');
    lema_filtro_doble(m, f1, f2);
    assert((|x: char| f1(x) && f2(x)) =~= h);
    assert(nombre_update(consulta_update(t, resto)) == m.filter(h));
    assert forall|i: int| 0 <= i < w.len() && es_espacio(#[trigger] w[i]) implies w[i] == ' ' by {
        if 1 <= i < w.len() - 1 {
            assert(w[i] == t[i - 1]);
        }
    }
    lema_filtro_tras_recortar_fin(w, h);
    lema_filtro_quita_todo(sp, h);
    Seq::filter_distributes_over_add(sp + t, sp, h);
    Seq::filter_distributes_over_add(sp, t, h);
    assert(w.filter(h) =~= t.filter(h));
}

} // verus!
