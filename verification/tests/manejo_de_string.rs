use consultas_csv::manejo_de_string::{obtener_primera_palabra, separar_datos_select};

#[test]
fn test05devuelve_la_primera_palabra_de_una_consulta() {
    let consulta = "UPDATE ordenes SET producto = cangrejo WHERE producto = Altavoces ";

    let primera_palabra = match obtener_primera_palabra(&consulta) {
        Ok(palabra) => palabra,
        Err(_) => "".to_string(),
    };

    let palabra_esperada = "UPDATE";
    assert_eq!(primera_palabra, palabra_esperada);
}

#[test]
fn test06separa_los_datos_del_select_y_los_devuelve() {
    let consulta = "SELECT id,producto,cantidad FROM ordenes WHERE producto = Teclado AND cantidad >= 1 ORDER BY CANTIDAD ASC ".to_string();

    let (nombre_csv, columnas, condiciones) = separar_datos_select(&consulta).unwrap();

    let nombre_csv_esperado = "ordenes";
    let columnas_eperadas = "id,producto,cantidad";
    let condiciones_esperadas = vec![
        "producto".to_string(),
        "=".to_string(),
        "Teclado".to_string(),
        "AND".to_string(),
        "cantidad".to_string(),
        ">=".to_string(),
        "1".to_string(),
        "ORDER".to_string(),
        "BY".to_string(),
        "CANTIDAD".to_string(),
        "ASC".to_string(),
    ];

    assert_eq!(nombre_csv, nombre_csv_esperado);
    assert_eq!(columnas, columnas_eperadas);
    assert_eq!(condiciones, condiciones_esperadas);
}

use consultas_csv::errors::SqlError;
use consultas_csv::manejo_de_string::{
    crear_matriz, parentesis_izquierdo, partentesis_derecho, separar_condiciones, separar_datos,
    separar_datos_delete, separar_datos_update, separar_order,
};

fn cadenas(v: &[&str]) -> Vec<String> {
    v.iter().map(|s| s.to_string()).collect()
}

#[test]
fn parentesis_como_dicen_sus_descripciones() {
    assert!(parentesis_izquierdo(")"));
    assert!(!parentesis_izquierdo("("));
    assert!(!parentesis_izquierdo("))"));
    assert!(!parentesis_izquierdo(""));
    assert!(!partentesis_derecho(")"));
    assert!(partentesis_derecho("("));
    assert!(partentesis_derecho(") "));
    assert!(partentesis_derecho("x"));
    assert!(partentesis_derecho(""));
}

#[test]
fn condiciones_separan_parentesis_y_espacios() {
    let t = separar_condiciones("producto = Teclado AND (cantidad >= 1 OR\tid=3)\n");
    assert_eq!(
        t,
        cadenas(&["producto", "=", "Teclado", "AND", "(", "cantidad", ">=", "1", "OR", "id=3", ")"])
    );
    assert_eq!(separar_condiciones("((a))"), cadenas(&["(", "(", "a", ")", ")"]));
    assert_eq!(separar_condiciones(""), Vec::<String>::new());
    assert_eq!(separar_condiciones(" \t \u{3000} "), Vec::<String>::new());
    assert_eq!(separar_condiciones("a\u{a0}b"), cadenas(&["a", "b"]));
}

#[test]
fn condiciones_unidas_y_separadas_de_nuevo_no_cambian() {
    let consulta = " (id>3)AND  nombre = 'Juan' OR(x)";
    let fichas = separar_condiciones(consulta);
    let otra_vez = separar_condiciones(&fichas.join(" "));
    assert_eq!(fichas, otra_vez);
}

#[test]
fn condiciones_cubren_la_entrada_sin_espacios() {
    let consulta = " a(b  c)\td ";
    let fichas = separar_condiciones(consulta);
    let sin_espacios: String = consulta.chars().filter(|c| !c.is_whitespace()).collect();
    assert_eq!(fichas.concat(), sin_espacios);
    assert!(fichas.iter().all(|f| !f.is_empty()));
}

#[test]
fn primera_palabra_salta_espacios_y_es_vacia_sin_palabras() {
    assert_eq!(obtener_primera_palabra("\t\n  SELECT * FROM x").unwrap(), "SELECT");
    assert_eq!(obtener_primera_palabra("   "), Ok(String::new()));
    assert_eq!(obtener_primera_palabra(""), Ok(String::new()));
}

#[test]
fn insert_separa_tabla_valores_y_columnas() {
    let (nombre, valores, columnas) = separar_datos(
        "INSERT INTO ordenes (id, producto, id_cliente) VALUES (111, 6, 'Laptop');",
    )
    .unwrap();
    assert_eq!(nombre, "ordenes");
    assert_eq!(valores, "(111,6,Laptop)");
    assert_eq!(columnas, cadenas(&["id", "", "producto", "", "id_cliente"]));

    let (nombre, valores, columnas) =
        separar_datos("INSERT INTO clientes (id,nombre) VALUES (1,'Ana'),(2,'Luis') ;;").unwrap();
    assert_eq!(nombre, "clientes");
    assert_eq!(valores, "(1,Ana),(2,Luis)");
    assert_eq!(columnas, cadenas(&["id", "nombre"]));
}

#[test]
fn insert_sin_values_o_sin_into_es_error() {
    assert_eq!(
        separar_datos("INSERT INTO ordenes (id) (1);"),
        Err(SqlError::InvalidSyntax)
    );
    assert_eq!(
        separar_datos("INSERT ordenes tabla (id) VALUES (1);"),
        Err(SqlError::InvalidSyntax)
    );
}

#[test]
fn delete_separa_tabla_y_condiciones() {
    let (nombre, condiciones) =
        separar_datos_delete("DELETE FROM clientes WHERE id = 4 AND nombre = 'Juan';").unwrap();
    assert_eq!(nombre, "clientes");
    assert_eq!(condiciones, cadenas(&["id", "=", "4", "AND", "nombre", "=", "Juan"]));
    assert_eq!(
        separar_datos_delete("DELETE clientes WHERE id = 4;"),
        Err(SqlError::InvalidSyntax)
    );
    assert_eq!(
        separar_datos_delete("DELETE FROM clientes;"),
        Err(SqlError::InvalidSyntax)
    );
}

#[test]
fn update_separa_tabla_campos_y_condiciones() {
    let (nombre, campos, condiciones) = separar_datos_update(
        "UPDATE clientes SET email = 'mrodriguez@hotmail.com' WHERE id = 4;",
    )
    .unwrap();
    assert_eq!(nombre, "clientes");
    assert_eq!(campos, cadenas(&["email", "=", "mrodriguez@hotmail.com"]));
    assert_eq!(condiciones, cadenas(&["id", "=", "4"]));
    assert_eq!(
        separar_datos_update("UPDATE clientes email = 'x' WHERE id = 4;"),
        Err(SqlError::InvalidSyntax)
    );
    assert_eq!(
        separar_datos_update("UPDATE clientes SET email = 'x';"),
        Err(SqlError::InvalidSyntax)
    );
}

#[test]
fn order_separa_condiciones_y_ordenamiento() {
    let condiciones = cadenas(&[
        "producto", "=", "Teclado", "AND", "cantidad", ">=", "1", "ORDER", "BY", "CANTIDAD", "ASC",
    ]);
    let (resto, orden) = separar_order(condiciones).unwrap();
    assert_eq!(resto, cadenas(&["producto", "=", "Teclado", "AND", "cantidad", ">=", "1"]));
    assert_eq!(orden, cadenas(&["CANTIDAD", "ASC"]));
    assert_eq!(
        separar_order(cadenas(&["id", "=", "1"])),
        Ok((cadenas(&["id", "=", "1"]), Vec::new()))
    );
    assert_eq!(
        separar_order(cadenas(&["(", "id", ")", "=", "'1 2'"])),
        Ok((cadenas(&["(", "id", ")", "=", "'1 2'"]), Vec::new()))
    );
    assert_eq!(
        separar_order(cadenas(&["id", "=", "1", "ORDER", "id"])),
        Err(SqlError::InvalidSyntax)
    );
}

fn posicion_en<'a>(header: &'a [String]) -> impl Fn(&String) -> Result<usize, SqlError> + 'a {
    move |columna: &String| {
        header
            .iter()
            .position(|h| h == columna)
            .ok_or(SqlError::InvalidSyntax)
    }
}

#[test]
fn crear_matriz_coloca_los_valores_por_columna() {
    let header = cadenas(&["id", "producto", "cantidad"]);
    let columnas = cadenas(&["producto", "id"]);
    let matriz = crear_matriz(
        "(1,Laptop)(2,Mouse,9)".to_string(),
        columnas,
        &header,
        posicion_en(&header),
        |elemento: &String, _pos: usize| Ok(elemento.to_uppercase()),
    )
    .unwrap();
    assert_eq!(
        matriz,
        vec![cadenas(&["LAPTOP", "1", ""]), cadenas(&["MOUSE", "2", ""])]
    );
}

#[test]
fn crear_matriz_propaga_los_errores() {
    let header = cadenas(&["id", "producto"]);
    let r = crear_matriz(
        "(1,Laptop)".to_string(),
        cadenas(&["id", "precio"]),
        &header,
        posicion_en(&header),
        |elemento: &String, _pos: usize| Ok(elemento.clone()),
    );
    assert_eq!(r, Err(SqlError::InvalidSyntax));
    let r = crear_matriz(
        "(x,Laptop)".to_string(),
        cadenas(&["id", "producto"]),
        &header,
        posicion_en(&header),
        |elemento: &String, pos: usize| {
            if pos == 0 && elemento.parse::<u32>().is_err() {
                Err(SqlError::InvalidSyntax)
            } else {
                Ok(elemento.clone())
            }
        },
    );
    assert_eq!(r, Err(SqlError::InvalidSyntax));
}

#[test]
fn crear_matriz_sin_columnas_deja_las_celdas_vacias() {
    let header = cadenas(&["id", "producto"]);
    let matriz = crear_matriz(
        "(1,Laptop),(2,Mouse)".to_string(),
        Vec::new(),
        &header,
        posicion_en(&header),
        |_e: &String, _p: usize| Err(SqlError::InvalidSyntax),
    )
    .unwrap();
    assert_eq!(matriz, vec![cadenas(&["", ""]), cadenas(&["", ""])]);
}

#[test]
fn palabras_unidas_con_espacios_se_recuperan() {
    let palabras = cadenas(&["CANTIDAD", "ASC", "x;y", "(z)"]);
    let mut condiciones = cadenas(&["id", "=", "1", "ORDER", "BY"]);
    condiciones.extend(palabras.clone());
    let (_, orden) = separar_order(condiciones).unwrap();
    assert_eq!(orden, palabras);
}

#[test]
fn parentesis_sueltos_y_contados() {
    let consulta = "((a AND b)OR(c))x(y";
    let fichas = separar_condiciones(consulta);
    for f in &fichas {
        assert!(f == "(" || f == ")" || (!f.contains('(') && !f.contains(')')));
    }
    let abre = fichas.iter().filter(|f| f.as_str() == "(").count();
    let cierra = fichas.iter().filter(|f| f.as_str() == ")").count();
    assert_eq!(abre, consulta.matches('(').count());
    assert_eq!(cierra, consulta.matches(')').count());
}

#[test]
fn un_separador_corta_las_fichas() {
    let a = "x = (1";
    let b = "OR y)";
    for s in [" ", "\t", "(", ")"] {
        let mut esperado = separar_condiciones(a);
        if s == "(" || s == ")" {
            esperado.push(s.to_string());
        }
        esperado.extend(separar_condiciones(b));
        assert_eq!(separar_condiciones(&format!("{}{}{}", a, s, b)), esperado);
    }
    assert_eq!(separar_condiciones("palabra"), cadenas(&["palabra"]));
}

#[test]
fn primera_palabra_es_prefijo_del_texto_sin_espacios_iniciales() {
    let cadena = " \n DELETE\tFROM x";
    let w = obtener_primera_palabra(cadena).unwrap();
    let t = cadena.trim_start();
    assert!(!w.is_empty() && !w.chars().any(|c| c.is_whitespace()));
    assert!(t.starts_with(&w));
    assert!(t[w.len()..].starts_with(char::is_whitespace));
}

#[test]
fn nombres_y_condiciones_quedan_limpios() {
    let (nombre, condiciones) =
        separar_datos_delete("DELETE FROM ( mis clientes ) WHERE nombre = 'Ana Maria';").unwrap();
    assert_eq!(nombre, "misclientes");
    assert_eq!(condiciones, cadenas(&["nombre", "=", "Ana", "Maria"]));
    let (nombre, columnas, _) =
        separar_datos_select("SELECT (id, 'nombre') FROM 'clientes' WHERE id = 1").unwrap();
    assert_eq!(nombre, "clientes");
    assert_eq!(columnas, "id,nombre");
}
