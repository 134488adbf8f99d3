//! The board model: cell states, coordinate translation, move validation,
//! placement, terminal-state detection and the naive opponent policy.

use vstd::prelude::*;
use vstd::arithmetic::div_mod::{
    lemma_div_pos_is_pos, lemma_fundamental_div_mod, lemma_fundamental_div_mod_converse,
    lemma_mod_division_less_than_divisor, lemma_multiply_divide_lt,
};
use vstd::arithmetic::mul::{lemma_mul_inequality, lemma_mul_is_commutative};
use vstd::pervasive::VecAdditionalExecFns;

verus! {

/// One cell of the grid: empty, or holding one player's mark.
#[derive(Debug, PartialEq, Eq, Structural, Clone, Copy)]
pub enum Pieza {
    Cruz,
    Circulo,
    Vacio,
}

/// The game board: a square grid of cells, row-major.
#[derive(Debug)]
pub struct Tablero {
    matriz: Vec<Vec<Pieza>>,
}

impl Tablero {
    /// Side length of the square grid.
    pub closed spec fn lado(self) -> int {
        self.matriz@.len() as int
    }

    /// Well-formedness invariant: at least one row, and every row holds
    /// exactly `lado()` cells, so the grid is square.
    pub closed spec fn bien_formado(self) -> bool {
        &&& 1 <= self.lado()
        &&& forall|i: int|
            0 <= i < self.lado() ==> (#[trigger] self.matriz@[i])@.len() == self.lado()
    }

    /// The cell in row `i`, column `j`.
    pub closed spec fn celda(self, i: int, j: int) -> Pieza {
        self.matriz@[i]@[j]
    }

    /// The cell addressed by linear index `n` in row-major order.
    pub open spec fn celda_lineal(self, n: int) -> Pieza {
        self.celda(n / self.lado(), n % self.lado())
    }

    /// Row `i` is a winning line: every cell of the row holds the same
    /// non-empty mark.
    pub open spec fn fila_ganadora(self, i: int) -> bool {
        &&& self.celda(i, 0) != Pieza::Vacio
        &&& forall|j: int|
            0 <= j < self.lado() ==> #[trigger] self.celda(i, j) == self.celda(i, 0)
    }

    /// Column `j` is a winning line: every cell of the column holds the same
    /// non-empty mark.
    pub open spec fn columna_ganadora(self, j: int) -> bool {
        &&& self.celda(0, j) != Pieza::Vacio
        &&& forall|i: int|
            0 <= i < self.lado() ==> #[trigger] self.celda(i, j) == self.celda(0, j)
    }

    /// The main diagonal (top-left to bottom-right) is a winning line.
    pub open spec fn diagonal_principal_ganadora(self) -> bool {
        &&& self.celda(0, 0) != Pieza::Vacio
        &&& forall|i: int|
            0 <= i < self.lado() ==> #[trigger] self.celda(i, i) == self.celda(0, 0)
    }

    /// The anti-diagonal (top-right to bottom-left) is a winning line.
    pub open spec fn diagonal_secundaria_ganadora(self) -> bool {
        &&& self.celda(0, self.lado() - 1) != Pieza::Vacio
        &&& forall|i: int|
            0 <= i < self.lado() ==> #[trigger] self.celda(i, self.lado() - 1 - i)
                == self.celda(0, self.lado() - 1)
    }

    /// Some row, column or diagonal is uniformly filled with one mark.
    pub open spec fn hay_linea_ganadora(self) -> bool {
        ||| exists|i: int| 0 <= i < self.lado() && #[trigger] self.fila_ganadora(i)
        ||| exists|j: int| 0 <= j < self.lado() && #[trigger] self.columna_ganadora(j)
        ||| self.diagonal_principal_ganadora()
        ||| self.diagonal_secundaria_ganadora()
    }

    /// Every cell of the grid is occupied.
    pub open spec fn lleno(self) -> bool {
        forall|i: int, j: int|
            0 <= i < self.lado() && 0 <= j < self.lado() ==> #[trigger] self.celda(i, j)
                != Pieza::Vacio
    }

    /// The game is over: either a line is complete (a win) or the board is
    /// full with no line complete (a draw).
    pub open spec fn terminal(self) -> bool {
        self.hay_linea_ganadora() || self.lleno()
    }

    /// Linear index `k` addresses the first empty cell in row-major order:
    /// it is on the grid, empty, and every cell before it is occupied.
    pub open spec fn primera_vacia_es(self, k: int) -> bool {
        &&& 0 <= k < self.lado() * self.lado()
        &&& self.celda_lineal(k) == Pieza::Vacio
        &&& forall|m: int| 0 <= m < k ==> #[trigger] self.celda_lineal(m) != Pieza::Vacio
    }

    /// A fresh, fully empty board with the default three-by-three grid.
    pub fn new() -> (t: Tablero)
        ensures
            t.bien_formado(),
            t.lado() == 3,
            forall|i: int, j: int|
                0 <= i < 3 && 0 <= j < 3 ==> #[trigger] t.celda(i, j) == Pieza::Vacio,
    {
        let mut matriz: Vec<Vec<Pieza>> = Vec::new();
        for i in 0..3usize
            invariant
                matriz@.len() == i,
                forall|a: int| 0 <= a < i ==> (#[trigger] matriz@[a])@.len() == 3,
                forall|a: int, b: int|
                    0 <= a < i && 0 <= b < 3 ==> #[trigger] matriz@[a]@[b] == Pieza::Vacio,
        {
            let fila = vec![Pieza::Vacio, Pieza::Vacio, Pieza::Vacio];
            matriz.push(fila);
        }
        Tablero { matriz }
    }

    /// Translate a linear index into (row, column) coordinates by integer
    /// division and remainder on the column count.
    pub fn traducir(&self, n: usize) -> (r: (usize, usize))
        requires
            self.bien_formado(),
        ensures
            r.0 == n as int / self.lado(),
            r.1 == n as int % self.lado(),
    {
        let c = self.matriz[0].len();
        (n / c, n % c)
    }

    /// A linear index is valid exactly when it lies within the grid and the
    /// cell it addresses is still empty. Out-of-range indices are rejected,
    /// never dereferenced.
    pub fn valida(&self, n: u32) -> (r: bool)
        requires
            self.bien_formado(),
        ensures
            r == (n < self.lado() * self.lado() && self.celda_lineal(n as int)
                == Pieza::Vacio),
    {
        let (i, j) = self.traducir(n as usize);
        proof {
            lema_rango_indice(self.lado(), n as int);
        }
        if i < self.matriz.len() {
            self.matriz[i][j] == Pieza::Vacio
        } else {
            false
        }
    }

    /// Place `pieza` into the empty cell addressed by linear index `n`.
    /// The result is the same board with exactly that one cell changed.
    pub fn poner(self, n: u32, pieza: Pieza) -> (t: Tablero)
        requires
            self.bien_formado(),
            n < self.lado() * self.lado(),
            self.celda_lineal(n as int) == Pieza::Vacio,
            pieza != Pieza::Vacio,
        ensures
            t.bien_formado(),
            t.lado() == self.lado(),
            t.celda_lineal(n as int) == pieza,
            forall|i: int, j: int|
                0 <= i < self.lado() && 0 <= j < self.lado()
                    && !(i == n as int / self.lado() && j == n as int % self.lado())
                    ==> #[trigger] t.celda(i, j) == self.celda(i, j),
            forall|m: int|
                0 <= m < self.lado() * self.lado() && m != n ==> #[trigger] t.celda_lineal(m)
                    == self.celda_lineal(m),
    {
        let mut t = self;
        let (i, j) = t.traducir(n as usize);
        proof {
            lema_rango_indice(t.lado(), n as int);
        }
        let ghost viejo = t;
        let ghost lado = viejo.lado();
        let fila = &mut t.matriz[i];
        fila.set(j, pieza);
        proof {
            assert forall|m: int|
                0 <= m < lado * lado && m != n ==> #[trigger] t.celda_lineal(m)
                    == viejo.celda_lineal(m) by {
                if 0 <= m < lado * lado && m != n {
                    lema_rango_indice(lado, m);
                    if m / lado == n as int / lado && m % lado == n as int % lado {
                        assert(false);
                    }
                }
            }
        }
        t
    }

    /// Does row `i` hold one identical non-empty mark in every cell?
    fn fila_completa(&self, i: usize) -> (r: bool)
        requires
            self.bien_formado(),
            i < self.lado(),
        ensures
            r == self.fila_ganadora(i as int),
    {
        let primera = self.matriz[i][0];
        if primera == Pieza::Vacio {
            return false;
        }
        let m = self.matriz[i].len();
        let mut j: usize = 1;
        while j < m
            invariant
                self.bien_formado(),
                i < self.lado(),
                m == self.lado(),
                1 <= j <= m,
                primera == self.celda(i as int, 0),
                primera != Pieza::Vacio,
                forall|k: int| 0 <= k < j ==> #[trigger] self.celda(i as int, k) == primera,
            decreases m - j,
        {
            if self.matriz[i][j] != primera {
                proof {
                    assert(self.celda(i as int, j as int) != self.celda(i as int, 0));
                }
                return false;
            }
            j += 1;
        }
        true
    }

    /// Does column `j` hold one identical non-empty mark in every cell?
    fn columna_completa(&self, j: usize) -> (r: bool)
        requires
            self.bien_formado(),
            j < self.lado(),
        ensures
            r == self.columna_ganadora(j as int),
    {
        let primera = self.matriz[0][j];
        if primera == Pieza::Vacio {
            return false;
        }
        let n = self.matriz.len();
        let mut i: usize = 1;
        while i < n
            invariant
                self.bien_formado(),
                j < self.lado(),
                n == self.lado(),
                1 <= i <= n,
                primera == self.celda(0, j as int),
                primera != Pieza::Vacio,
                forall|k: int| 0 <= k < i ==> #[trigger] self.celda(k, j as int) == primera,
            decreases n - i,
        {
            if self.matriz[i][j] != primera {
                proof {
                    assert(self.celda(i as int, j as int) != self.celda(0, j as int));
                }
                return false;
            }
            i += 1;
        }
        true
    }

    /// Is the main diagonal uniformly filled with one non-empty mark?
    fn diagonal_principal_completa(&self) -> (r: bool)
        requires
            self.bien_formado(),
        ensures
            r == self.diagonal_principal_ganadora(),
    {
        let primera = self.matriz[0][0];
        if primera == Pieza::Vacio {
            return false;
        }
        let n = self.matriz.len();
        let mut i: usize = 1;
        while i < n
            invariant
                self.bien_formado(),
                n == self.lado(),
                1 <= i <= n,
                primera == self.celda(0, 0),
                primera != Pieza::Vacio,
                forall|k: int| 0 <= k < i ==> #[trigger] self.celda(k, k) == primera,
            decreases n - i,
        {
            if self.matriz[i][i] != primera {
                proof {
                    assert(self.celda(i as int, i as int) != self.celda(0, 0));
                }
                return false;
            }
            i += 1;
        }
        true
    }

    /// Is the anti-diagonal uniformly filled with one non-empty mark?
    fn diagonal_secundaria_completa(&self) -> (r: bool)
        requires
            self.bien_formado(),
        ensures
            r == self.diagonal_secundaria_ganadora(),
    {
        let n = self.matriz.len();
        let primera = self.matriz[0][n - 1];
        if primera == Pieza::Vacio {
            return false;
        }
        let mut i: usize = 1;
        while i < n
            invariant
                self.bien_formado(),
                n == self.lado(),
                1 <= i <= n,
                primera == self.celda(0, self.lado() - 1),
                primera != Pieza::Vacio,
                forall|k: int|
                    0 <= k < i ==> #[trigger] self.celda(k, self.lado() - 1 - k) == primera,
            decreases n - i,
        {
            if self.matriz[i][n - 1 - i] != primera {
                proof {
                    assert(self.celda(i as int, self.lado() - 1 - i) != self.celda(
                        0,
                        self.lado() - 1,
                    ));
                }
                return false;
            }
            i += 1;
        }
        true
    }

    /// Is every cell of the grid occupied?
    fn esta_lleno(&self) -> (r: bool)
        requires
            self.bien_formado(),
        ensures
            r == self.lleno(),
    {
        let n = self.matriz.len();
        let mut i: usize = 0;
        while i < n
            invariant
                self.bien_formado(),
                n == self.lado(),
                i <= n,
                forall|a: int, b: int|
                    0 <= a < i && 0 <= b < self.lado() ==> #[trigger] self.celda(a, b)
                        != Pieza::Vacio,
            decreases n - i,
        {
            let m = self.matriz[i].len();
            let mut j: usize = 0;
            while j < m
                invariant
                    self.bien_formado(),
                    n == self.lado(),
                    m == self.lado(),
                    i < n,
                    j <= m,
                    forall|a: int, b: int|
                        0 <= a < i && 0 <= b < self.lado() ==> #[trigger] self.celda(a, b)
                            != Pieza::Vacio,
                    forall|b: int|
                        0 <= b < j ==> #[trigger] self.celda(i as int, b) != Pieza::Vacio,
                decreases m - j,
            {
                if self.matriz[i][j] == Pieza::Vacio {
                    proof {
                        assert(self.celda(i as int, j as int) == Pieza::Vacio);
                    }
                    return false;
                }
                j += 1;
            }
            i += 1;
        }
        true
    }

    /// Scan the grid in row-major order for the first empty cell.
    fn primera_vacia(&self) -> (r: Option<(usize, usize)>)
        requires
            self.bien_formado(),
        ensures
            match r {
                Some(p) => {
                    &&& p.0 < self.lado()
                    &&& p.1 < self.lado()
                    &&& self.celda(p.0 as int, p.1 as int) == Pieza::Vacio
                    &&& forall|a: int, b: int|
                        0 <= a < self.lado() && 0 <= b < self.lado() && (a < p.0 || (a == p.0
                            && b < p.1)) ==> #[trigger] self.celda(a, b) != Pieza::Vacio
                },
                None => self.lleno(),
            },
    {
        let n = self.matriz.len();
        let mut i: usize = 0;
        while i < n
            invariant
                self.bien_formado(),
                n == self.lado(),
                i <= n,
                forall|a: int, b: int|
                    0 <= a < i && 0 <= b < self.lado() ==> #[trigger] self.celda(a, b)
                        != Pieza::Vacio,
            decreases n - i,
        {
            let m = self.matriz[i].len();
            let mut j: usize = 0;
            while j < m
                invariant
                    self.bien_formado(),
                    n == self.lado(),
                    m == self.lado(),
                    i < n,
                    j <= m,
                    forall|a: int, b: int|
                        0 <= a < i && 0 <= b < self.lado() ==> #[trigger] self.celda(a, b)
                            != Pieza::Vacio,
                    forall|b: int|
                        0 <= b < j ==> #[trigger] self.celda(i as int, b) != Pieza::Vacio,
                decreases m - j,
            {
                if self.matriz[i][j] == Pieza::Vacio {
                    return Some((i, j));
                }
                j += 1;
            }
            i += 1;
        }
        None
    }

    /// The opponent policy: occupy the first empty cell in row-major order
    /// with `pieza` and report true; on a full board change nothing and
    /// report false. Deliberately not adversarial.
    pub fn ia(&mut self, pieza: Pieza) -> (r: bool)
        requires
            old(self).bien_formado(),
            pieza != Pieza::Vacio,
        ensures
            final(self).bien_formado(),
            final(self).lado() == old(self).lado(),
            r == !old(self).lleno(),
            r ==> exists|k: int| old(self).primera_vacia_es(k),
            !r ==> *final(self) == *old(self),
            forall|k: int|
                #[trigger] old(self).primera_vacia_es(k) ==> final(self).celda_lineal(k)
                    == pieza,
            forall|k: int, m: int|
                #[trigger] old(self).primera_vacia_es(k) && 0 <= m < old(self).lado() * old(
                    self,
                ).lado() && m != k ==> #[trigger] final(self).celda_lineal(m) == old(
                    self,
                ).celda_lineal(m),
    {
        match self.primera_vacia() {
            Some((i, j)) => {
                let ghost viejo = *self;
                let ghost lado = viejo.lado();
                let ghost k0 = i as int * lado + j as int;
                proof {
                    lema_coordenadas_indice(lado, i as int, j as int);
                }
                let fila = &mut self.matriz[i];
                fila.set(j, pieza);
                proof {
                    assert(!viejo.lleno());
                    assert(viejo.primera_vacia_es(k0)) by {
                        assert forall|m: int| 0 <= m < k0 implies #[trigger] viejo.celda_lineal(
                            m,
                        ) != Pieza::Vacio by {
                            lema_orden_lineal(lado, i as int, j as int, m);
                        }
                    }
                    assert forall|k: int| viejo.primera_vacia_es(k) implies k == k0 by {
                        if k < k0 {
                            lema_orden_lineal(lado, i as int, j as int, k);
                            assert(viejo.celda(k / lado, k % lado) != Pieza::Vacio);
                        }
                        if k > k0 {
                            assert(viejo.celda_lineal(k0) != Pieza::Vacio);
                        }
                    }
                    assert forall|m: int|
                        0 <= m < lado * lado && m != k0 implies #[trigger] self.celda_lineal(m)
                        == viejo.celda_lineal(m) by {
                        lema_rango_indice(lado, m);
                        if m / lado == i as int && m % lado == j as int {
                            lemma_mul_is_commutative(lado, i as int);
                            assert(false);
                        }
                    }
                    assert(self.celda(i as int, j as int) == pieza);
                    assert(self.celda_lineal(k0) == pieza);
                }
                true
            },
            None => {
                proof {
                    assert forall|k: int| !(#[trigger] self.primera_vacia_es(k)) by {
                        if 0 <= k < self.lado() * self.lado() {
                            lema_rango_indice(self.lado(), k);
                            assert(self.celda(k / self.lado(), k % self.lado()) != Pieza::Vacio);
                        }
                    }
                }
                false
            },
        }
    }

    /// Has the game reached an end state? True exactly when some row, column
    /// or diagonal is uniformly filled with one mark (a win), or the board is
    /// completely occupied (a draw).
    pub fn fin(&self) -> (r: bool)
        requires
            self.bien_formado(),
        ensures
            r == self.terminal(),
    {
        let n = self.matriz.len();

        let mut i: usize = 0;
        while i < n
            invariant
                self.bien_formado(),
                n == self.lado(),
                i <= n,
                forall|k: int| 0 <= k < i ==> !#[trigger] self.fila_ganadora(k),
            decreases n - i,
        {
            if self.fila_completa(i) {
                return true;
            }
            i += 1;
        }

        let mut j: usize = 0;
        while j < n
            invariant
                self.bien_formado(),
                n == self.lado(),
                j <= n,
                forall|k: int| 0 <= k < n ==> !#[trigger] self.fila_ganadora(k),
                forall|k: int| 0 <= k < j ==> !#[trigger] self.columna_ganadora(k),
            decreases n - j,
        {
            if self.columna_completa(j) {
                return true;
            }
            j += 1;
        }

        if self.diagonal_principal_completa() {
            return true;
        }
        if self.diagonal_secundaria_completa() {
            return true;
        }

        self.esta_lleno()
    }

    /// The side length of the grid, as an executable value.
    pub fn dimension(&self) -> (r: usize)
        ensures
            r == self.lado(),
    {
        self.matriz.len()
    }

    /// Read the cell in row `i`, column `j`.
    pub fn celda_en(&self, i: usize, j: usize) -> (r: Pieza)
        requires
            self.bien_formado(),
            i < self.lado(),
            j < self.lado(),
        ensures
            r == self.celda(i as int, j as int),
    {
        self.matriz[i][j]
    }
}

/// Round-trip law: translating a linear index on the grid to (row, column)
/// coordinates and reconstructing `row * C + col` yields the index again,
/// and both coordinates lie on the grid.
pub proof fn lema_traducir_ida_y_vuelta(t: Tablero, n: int)
    requires
        t.bien_formado(),
        0 <= n < t.lado() * t.lado(),
    ensures
        (n / t.lado()) * t.lado() + n % t.lado() == n,
        0 <= n / t.lado() < t.lado(),
        0 <= n % t.lado() < t.lado(),
{
    lema_rango_indice(t.lado(), n);
    lemma_mul_is_commutative(t.lado(), n / t.lado());
}

/// A board with a full row of one identical non-empty mark is terminal.
pub proof fn lema_fila_ganadora_terminal(t: Tablero, i: int)
    requires
        t.bien_formado(),
        0 <= i < t.lado(),
        t.fila_ganadora(i),
    ensures
        t.terminal(),
{
}

/// A board with a full column of one identical non-empty mark is terminal.
pub proof fn lema_columna_ganadora_terminal(t: Tablero, j: int)
    requires
        t.bien_formado(),
        0 <= j < t.lado(),
        t.columna_ganadora(j),
    ensures
        t.terminal(),
{
}

/// A board with either diagonal uniformly filled with one non-empty mark is
/// terminal.
pub proof fn lema_diagonal_ganadora_terminal(t: Tablero)
    requires
        t.bien_formado(),
        t.diagonal_principal_ganadora() || t.diagonal_secundaria_ganadora(),
    ensures
        t.terminal(),
{
}

/// A fully occupied board is terminal even when no line is complete: a draw
/// must never pass for an ongoing game.
pub proof fn lema_lleno_terminal(t: Tablero)
    requires
        t.bien_formado(),
        t.lleno(),
    ensures
        t.terminal(),
{
}

/// A board with at least one empty cell and no complete row, column or
/// diagonal is not terminal.
pub proof fn lema_sin_linea_no_terminal(t: Tablero)
    requires
        t.bien_formado(),
        !t.lleno(),
        forall|i: int| 0 <= i < t.lado() ==> !(#[trigger] t.fila_ganadora(i)),
        forall|j: int| 0 <= j < t.lado() ==> !(#[trigger] t.columna_ganadora(j)),
        !t.diagonal_principal_ganadora(),
        !t.diagonal_secundaria_ganadora(),
    ensures
        !t.terminal(),
{
}

/// Facts tying a linear index to its (row, column) coordinates on a square
/// grid of side `lado`: the remainder is a column, positivity of the
/// quotient, and the quotient is a row exactly when the index is on the grid.
proof fn lema_rango_indice(lado: int, n: int)
    requires
        1 <= lado,
        0 <= n,
    ensures
        0 <= n % lado < lado,
        0 <= n / lado,
        (n / lado < lado) <==> (n < lado * lado),
        lado * (n / lado) + n % lado == n,
{
    lemma_fundamental_div_mod(n, lado);
    lemma_mod_division_less_than_divisor(n, lado);
    lemma_div_pos_is_pos(n, lado);
    if n < lado * lado {
        lemma_multiply_divide_lt(n, lado, lado);
    }
    if n / lado < lado {
        lemma_mul_inequality(n / lado, lado - 1, lado);
        lemma_mul_is_commutative(lado, n / lado);
        assert((lado - 1) * lado == lado * lado - lado) by (nonlinear_arith);
    }
}

/// Coordinates (i, j) on a square grid of side `lado` correspond to the
/// linear index `i * lado + j`: it lies on the grid and divides back into
/// exactly those coordinates.
proof fn lema_coordenadas_indice(lado: int, i: int, j: int)
    requires
        1 <= lado,
        0 <= i < lado,
        0 <= j < lado,
    ensures
        0 <= i * lado + j < lado * lado,
        (i * lado + j) / lado == i,
        (i * lado + j) % lado == j,
{
    lemma_fundamental_div_mod_converse(i * lado + j, lado, i, j);
    lemma_mul_inequality(i, lado - 1, lado);
    assert((lado - 1) * lado == lado * lado - lado) by (nonlinear_arith);
    lemma_mul_inequality(0, i, lado);
}

/// Row-major order of coordinates agrees with the order of linear indices:
/// an index strictly below `i * lado + j` lands on an earlier row, or on the
/// same row in an earlier column.
proof fn lema_orden_lineal(lado: int, i: int, j: int, m: int)
    requires
        1 <= lado,
        0 <= i < lado,
        0 <= j < lado,
        0 <= m < i * lado + j,
    ensures
        0 <= m / lado < lado,
        0 <= m % lado < lado,
        m / lado < i || (m / lado == i && m % lado < j),
{
    lema_coordenadas_indice(lado, i, j);
    lema_rango_indice(lado, m);
    let a: int = m / lado;
    let b: int = m % lado;
    if a > i {
        lemma_mul_inequality(i + 1, a, lado);
        lemma_mul_is_commutative(lado, a);
        assert((i + 1) * lado == i * lado + lado) by (nonlinear_arith);
        assert(false);
    }
    if a == i && b >= j {
        lemma_mul_is_commutative(lado, i);
        assert(false);
    }
}

} // verus!
