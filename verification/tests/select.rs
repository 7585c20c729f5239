use consultas_csv::consultas::select::{
    clave_de_orden, columnas_a_mostrar, lineas_de_select_por_columna, ordenar_matriz_por_columna,
    precede_cadenas, preparar_select, proyectar_filas, separar_columnas,
};
use consultas_csv::errors::SqlError;
use consultas_csv::texto::es_espacio_en_blanco;

fn cadenas(v: &[&str]) -> Vec<String> {
    v.iter().map(|s| s.to_string()).collect()
}

fn posicion_en<'a>(header: &'a [String]) -> impl Fn(&String) -> Result<usize, SqlError> + 'a {
    move |columna: &String| {
        header
            .iter()
            .position(|h| h == columna)
            .ok_or(SqlError::InvalidSyntax)
    }
}

fn ordenes() -> Vec<Vec<String>> {
    vec![
        cadenas(&["id", "id_cliente", "producto", "cantidad"]),
        cadenas(&["1", "2", "Monitor", "22"]),
        cadenas(&["2222", "2", "Monitor", "1"]),
        cadenas(&["3333", "3", "Monitor", "22"]),
    ]
}

#[test]
fn espacios_en_blanco_como_en_std() {
    for codigo in 0u32..0x11_0000 {
        if let Some(c) = char::from_u32(codigo) {
            assert_eq!(es_espacio_en_blanco(c), c.is_whitespace(), "{:?}", c);
        }
    }
}

#[test]
fn preparar_select_separa_todo() {
    let (nombre, columnas, condiciones, orden) = preparar_select(
        "SELECT * FROM ordenes WHERE producto = Monitor ORDER BY CANTIDAD ASC;",
    )
    .unwrap();
    assert_eq!(nombre, "ordenes");
    assert_eq!(columnas, "*");
    assert_eq!(condiciones, cadenas(&["producto", "=", "Monitor"]));
    assert_eq!(orden, cadenas(&["CANTIDAD", "ASC"]));
    let (nombre, columnas, condiciones, orden) =
        preparar_select("SELECT id FROM ordenes WHERE producto = Monitor;").unwrap();
    assert_eq!(nombre, "ordenes");
    assert_eq!(columnas, "id");
    assert_eq!(condiciones, cadenas(&["producto", "=", "Monitor"]));
    assert_eq!(orden, Vec::<String>::new());
    assert_eq!(
        preparar_select("SELECT * FROM ordenes WHERE producto = Monitor ORDER id;"),
        Err(SqlError::InvalidSyntax)
    );
    assert_eq!(
        preparar_select("SELECT * FROM ordenes ORDER BY id ASC;"),
        Err(SqlError::InvalidSyntax)
    );
}

#[test]
fn asterisco_muestra_todo_el_header() {
    let header = cadenas(&["id", "producto", "cantidad"]);
    assert_eq!(columnas_a_mostrar("*".to_string(), &header), "id,producto,cantidad");
    assert_eq!(columnas_a_mostrar("id,cantidad".to_string(), &header), "id,cantidad");
}

#[test]
fn columnas_se_separan_por_comas_y_se_recortan() {
    assert_eq!(separar_columnas(" id , producto,cantidad "), cadenas(&["id", "producto", "cantidad"]));
    assert_eq!(separar_columnas(""), cadenas(&[""]));
}

#[test]
fn proyectar_toma_las_columnas_pedidas() {
    let matriz = ordenes();
    let lineas = proyectar_filas(&matriz, &vec![2, 0]);
    assert_eq!(
        lineas,
        cadenas(&["producto,id", "Monitor,1", "Monitor,2222", "Monitor,3333"])
    );
}

#[test]
fn orden_lexicografico() {
    assert!(precede_cadenas(&"22".to_string(), &"3".to_string()));
    assert!(precede_cadenas(&"ab".to_string(), &"ab".to_string()));
    assert!(precede_cadenas(&"".to_string(), &"a".to_string()));
    assert!(!precede_cadenas(&"b".to_string(), &"ab".to_string()));
    assert!(!precede_cadenas(&"abc".to_string(), &"ab".to_string()));
}

#[test]
fn ordenar_matriz_ascendente_y_estable() {
    let header = ordenes()[0].clone();
    let m = ordenar(ordenes(), cadenas(&["CANTIDAD", "ASC"]), &header).unwrap();
    assert_eq!(
        m,
        vec![
            cadenas(&["id", "id_cliente", "producto", "cantidad"]),
            cadenas(&["2222", "2", "Monitor", "1"]),
            cadenas(&["1", "2", "Monitor", "22"]),
            cadenas(&["3333", "3", "Monitor", "22"]),
        ]
    );
}

#[test]
fn ordenar_matriz_descendente() {
    let header = ordenes()[0].clone();
    let m = ordenar(ordenes(), cadenas(&["id", "DESC"]), &header).unwrap();
    let ids: Vec<&str> = m.iter().map(|f| f[0].as_str()).collect();
    assert_eq!(ids, vec!["id", "3333", "2222", "1"]);
}

#[test]
fn ordenar_matriz_errores() {
    let header = ordenes()[0].clone();
    assert_eq!(
        ordenar(ordenes(), cadenas(&["cantidad", "ARRIBA"]), &header),
        Err(SqlError::InvalidSyntax)
    );
    assert_eq!(
        ordenar(ordenes(), cadenas(&["precio", "ASC"]), &header),
        Err(SqlError::InvalidSyntax)
    );
}

#[test]
fn ordenar_matriz_deja_las_mismas_filas_en_orden() {
    let header = ordenes()[0].clone();
    let m = ordenar(ordenes(), cadenas(&["producto", "DESC"]), &header).unwrap();
    let mut antes = ordenes();
    let mut despues = m.clone();
    antes.sort();
    despues.sort();
    assert_eq!(antes, despues);
    for k in 2..m.len() {
        assert!(m[k - 1][2] >= m[k][2]);
    }
}

fn ordenar(
    matriz: Vec<Vec<String>>,
    ordenamiento: Vec<String>,
    header: &[String],
) -> Result<Vec<Vec<String>>, SqlError> {
    let columna = clave_de_orden(&ordenamiento);
    ordenar_matriz_por_columna(matriz, ordenamiento, &columna, &posicion_en(header))
}

fn lineas(
    matriz: Vec<Vec<String>>,
    columnas_selec: &str,
    ordenamiento: Vec<String>,
    header: &[String],
) -> Result<Vec<String>, SqlError> {
    let columna = clave_de_orden(&ordenamiento);
    lineas_de_select_por_columna(
        matriz,
        columnas_selec.to_string(),
        ordenamiento,
        &columna,
        &posicion_en(header),
    )
}

#[test]
fn lineas_con_columnas_en_el_orden_pedido() {
    let header = ordenes()[0].clone();
    let resultado = lineas(ordenes(), " cantidad ,id", cadenas(&["ID", "DESC"]), &header).unwrap();
    assert_eq!(resultado, cadenas(&["cantidad,id", "22,3333", "1,2222", "22,1"]));
}

#[test]
fn lineas_sin_filas_de_datos() {
    let header = ordenes()[0].clone();
    let resultado = lineas(vec![header.clone()], "producto", cadenas(&["id", "ASC"]), &header).unwrap();
    assert_eq!(resultado, cadenas(&["producto"]));
}

#[test]
fn la_columna_de_orden_va_en_minusculas() {
    assert_eq!(clave_de_orden(&cadenas(&["CANTIDAD", "ASC"])), "cantidad");
    assert_eq!(clave_de_orden(&cadenas(&["Id"])), "id");
}

#[test]
fn select_muestra_las_filas_ordenadas() {
    let header = ordenes()[0].clone();
    let (_, columnas, _, orden) = preparar_select(
        "SELECT * FROM ordenes WHERE producto = Monitor ORDER BY CANTIDAD ASC;",
    )
    .unwrap();
    let columnas = columnas_a_mostrar(columnas, &header);
    let resultado = lineas(ordenes(), &columnas, orden, &header).unwrap();
    assert_eq!(
        resultado,
        cadenas(&[
            "id,id_cliente,producto,cantidad",
            "2222,2,Monitor,1",
            "1,2,Monitor,22",
            "3333,3,Monitor,22",
        ])
    );
    assert_eq!(
        lineas(ordenes(), "id, precio", cadenas(&["CANTIDAD", "ASC"]), &header),
        Err(SqlError::InvalidSyntax)
    );
}

#[test]
fn asterisco_se_lee_como_el_header() {
    let header = ordenes()[0].clone();
    let columnas = columnas_a_mostrar("*".to_string(), &header);
    assert_eq!(separar_columnas(&columnas), header);
}
