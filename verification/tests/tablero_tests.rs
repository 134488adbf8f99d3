use tres_en_raya::tablero::{Pieza, Tablero};

fn poner_varias(mut t: Tablero, indices: &[u32], pieza: Pieza) -> Tablero {
    for &n in indices {
        t = t.poner(n, pieza);
    }
    t
}

#[test]
fn traducir_ida_y_vuelta() {
    let t = Tablero::new();
    for n in 0..9usize {
        let (i, j) = t.traducir(n);
        assert!(i < 3 && j < 3);
        assert_eq!(i * 3 + j, n);
    }
}

#[test]
fn traducir_valores_exactos() {
    let t = Tablero::new();
    assert_eq!(t.traducir(0), (0, 0));
    assert_eq!(t.traducir(5), (1, 2));
    assert_eq!(t.traducir(8), (2, 2));
}

#[test]
fn valida_solo_casillas_vacias_en_rango() {
    let t = Tablero::new();
    for n in 0..9u32 {
        assert!(t.valida(n));
    }
    assert!(!t.valida(9));
    assert!(!t.valida(10));
    assert!(!t.valida(100));
    assert!(!t.valida(u32::MAX));

    let t = t.poner(4, Pieza::Circulo);
    assert!(!t.valida(4));
    assert!(t.valida(0));
    assert!(t.valida(8));
}

#[test]
fn fila_completa_es_final() {
    let t = poner_varias(Tablero::new(), &[0, 1, 2], Pieza::Circulo);
    assert!(t.fin());
    let t = poner_varias(Tablero::new(), &[6, 7, 8], Pieza::Cruz);
    assert!(t.fin());
}

#[test]
fn columna_completa_es_final() {
    let t = poner_varias(Tablero::new(), &[0, 3, 6], Pieza::Circulo);
    assert!(t.fin());
    let t = poner_varias(Tablero::new(), &[2, 5, 8], Pieza::Cruz);
    assert!(t.fin());
}

#[test]
fn diagonal_principal_es_final() {
    let t = poner_varias(Tablero::new(), &[0, 4, 8], Pieza::Circulo);
    assert!(t.fin());
}

#[test]
fn diagonal_secundaria_es_final() {
    let t = poner_varias(Tablero::new(), &[2, 4, 6], Pieza::Cruz);
    assert!(t.fin());
}

#[test]
fn tablero_lleno_sin_linea_es_final() {
    // A A B / B B A / A A B: full, and no row, column or diagonal matches.
    let t = poner_varias(Tablero::new(), &[0, 1, 5, 6, 7], Pieza::Circulo);
    let t = poner_varias(t, &[2, 3, 4, 8], Pieza::Cruz);
    assert!(t.fin());
}

#[test]
fn tablero_lleno_alternado_es_final() {
    let mut t = Tablero::new();
    for n in 0..9u32 {
        let pieza = if n % 2 == 0 { Pieza::Circulo } else { Pieza::Cruz };
        t = t.poner(n, pieza);
    }
    assert!(t.fin());
}

#[test]
fn tablero_vacio_no_es_final() {
    let t = Tablero::new();
    assert!(!t.fin());
}

#[test]
fn una_sola_pieza_no_es_final() {
    for n in 0..9u32 {
        let t = Tablero::new().poner(n, Pieza::Circulo);
        assert!(!t.fin());
    }
}

#[test]
fn parcial_sin_linea_no_es_final() {
    let t = poner_varias(Tablero::new(), &[0, 1], Pieza::Circulo);
    let t = t.poner(2, Pieza::Cruz);
    assert!(!t.fin());
}

#[test]
fn poner_cambia_solo_su_casilla() {
    let antes = poner_varias(Tablero::new(), &[0, 8], Pieza::Cruz);
    let celdas_antes: Vec<Pieza> = (0..9usize).map(|n| antes.celda_en(n / 3, n % 3)).collect();
    let t = antes.poner(4, Pieza::Circulo);
    for i in 0..3usize {
        for j in 0..3usize {
            if (i, j) == (1, 1) {
                assert_eq!(t.celda_en(i, j), Pieza::Circulo);
            } else {
                assert_eq!(t.celda_en(i, j), celdas_antes[i * 3 + j]);
            }
        }
    }
}

#[test]
fn ia_toma_primera_casilla_vacia() {
    let mut t = poner_varias(Tablero::new(), &[0, 1], Pieza::Circulo);
    assert!(t.ia(Pieza::Cruz));
    assert_eq!(t.celda_en(0, 2), Pieza::Cruz);
    assert_eq!(t.celda_en(0, 0), Pieza::Circulo);
    assert_eq!(t.celda_en(0, 1), Pieza::Circulo);
    assert_eq!(t.celda_en(1, 0), Pieza::Vacio);
}

#[test]
fn ia_en_tablero_vacio_toma_la_primera() {
    let mut t = Tablero::new();
    assert!(t.ia(Pieza::Cruz));
    assert_eq!(t.celda_en(0, 0), Pieza::Cruz);
    for n in 1..9usize {
        assert_eq!(t.celda_en(n / 3, n % 3), Pieza::Vacio);
    }
}

#[test]
fn ia_en_tablero_lleno_no_mueve() {
    let mut t = Tablero::new();
    for n in 0..9u32 {
        let pieza = if n % 2 == 0 { Pieza::Circulo } else { Pieza::Cruz };
        t = t.poner(n, pieza);
    }
    let copia: Vec<Pieza> = (0..9usize).map(|n| t.celda_en(n / 3, n % 3)).collect();
    assert!(!t.ia(Pieza::Cruz));
    for n in 0..9usize {
        assert_eq!(t.celda_en(n / 3, n % 3), copia[n]);
    }
}

#[test]
fn dimension_por_defecto() {
    let t = Tablero::new();
    assert_eq!(t.dimension(), 3);
    for i in 0..3usize {
        for j in 0..3usize {
            assert_eq!(t.celda_en(i, j), Pieza::Vacio);
        }
    }
}
