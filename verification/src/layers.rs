//! The layer table: validated once, then shared read-only.

use vstd::prelude::*;
use crate::action::{depth, refs_within, Action, MAX_NESTING};
use crate::matrix::Coordinate;

verus! {

/// Why a layer table was turned down.
#[derive(Clone, Copy, Debug, PartialEq, Eq, Structural)]
pub enum ConfigError {
    /// The table has no layer at all, so there is no base layer.
    NoLayers,
    /// Some layer or row differs in size from the base layer's.
    Ragged,
    /// Some action nests hold-tap actions deeper than `MAX_NESTING`.
    TooDeep,
    /// Some action toggles a layer that the table does not have.
    LayerOutOfRange,
}

/// A property that every action of a sound table has.
#[derive(Clone, Copy, Debug, PartialEq, Eq, Structural)]
pub enum Check {
    /// Hold-tap actions nest at most `MAX_NESTING` deep.
    Nesting,
    /// Every layer toggle names a layer of the table.
    LayerRefs,
}

/// Whether action `a` of a table of `layers` layers has property `check`.
pub open spec fn passes(check: Check, a: Action, layers: nat) -> bool {
    match check {
        Check::Nesting => depth(a) <= MAX_NESTING,
        Check::LayerRefs => refs_within(a, layers),
    }
}

pub open spec fn row_passes(row: Vec<Action>, check: Check, layers: nat) -> bool {
    forall|c: int| 0 <= c < row.len() ==> passes(check, #[trigger] row[c], layers)
}

pub open spec fn layer_passes(layer: Vec<Vec<Action>>, check: Check, layers: nat) -> bool {
    forall|r: int| 0 <= r < layer.len() ==> row_passes(#[trigger] layer[r], check, layers)
}

/// Every action of `table` has property `check`.
pub open spec fn table_passes(table: Vec<Vec<Vec<Action>>>, check: Check) -> bool {
    forall|l: int|
        0 <= l < table.len() ==> layer_passes(#[trigger] table[l], check, table.len() as nat)
}

/// Number of rows of the base layer (0 for an empty table).
pub open spec fn table_rows(table: Vec<Vec<Vec<Action>>>) -> nat {
    if table.len() == 0 {
        0
    } else {
        table[0].len() as nat
    }
}

/// Number of columns of the base layer's first row (0 if there is none).
pub open spec fn table_cols(table: Vec<Vec<Vec<Action>>>) -> nat {
    if table.len() == 0 || table[0].len() == 0 {
        0
    } else {
        table[0][0].len() as nat
    }
}

pub open spec fn layer_shaped(layer: Vec<Vec<Action>>, rows: nat, cols: nat) -> bool {
    &&& layer.len() == rows
    &&& forall|r: int| 0 <= r < layer.len() ==> (#[trigger] layer[r]).len() == cols
}

/// Every layer has the base layer's rows, every row its columns.
pub open spec fn rectangular(table: Vec<Vec<Vec<Action>>>) -> bool {
    forall|l: int|
        0 <= l < table.len() ==> layer_shaped(
            #[trigger] table[l],
            table_rows(table),
            table_cols(table),
        )
}

/// What a table must satisfy to be used by the layout engine.
pub open spec fn table_sound(table: Vec<Vec<Vec<Action>>>) -> bool {
    &&& table.len() > 0
    &&& rectangular(table)
    &&& table_passes(table, Check::Nesting)
    &&& table_passes(table, Check::LayerRefs)
}

/// The error that an unsound table is turned down with: the first
/// of the four conditions of `table_sound` that fails.
pub open spec fn table_fault(table: Vec<Vec<Vec<Action>>>) -> ConfigError {
    if table.len() == 0 {
        ConfigError::NoLayers
    } else if !rectangular(table) {
        ConfigError::Ragged
    } else if !table_passes(table, Check::Nesting) {
        ConfigError::TooDeep
    } else {
        ConfigError::LayerOutOfRange
    }
}

fn check_action(check: Check, a: &Action, layers: usize) -> (ok: bool)
    ensures
        ok == passes(check, *a, layers as nat),
{
    match check {
        Check::Nesting => a.nesting_within(MAX_NESTING),
        Check::LayerRefs => a.layers_within(layers),
    }
}

fn check_row(row: &Vec<Action>, check: Check, layers: usize) -> (ok: bool)
    ensures
        ok == row_passes(*row, check, layers as nat),
{
    let mut c: usize = 0;
    while c < row.len()
        invariant
            c <= row.len(),
            forall|j: int| 0 <= j < c ==> passes(check, #[trigger] row[j], layers as nat),
        decreases row.len() - c,
    {
        if !check_action(check, &row[c], layers) {
            return false;
        }
        c += 1;
    }
    true
}

fn check_layer(layer: &Vec<Vec<Action>>, check: Check, layers: usize) -> (ok: bool)
    ensures
        ok == layer_passes(*layer, check, layers as nat),
{
    let mut r: usize = 0;
    while r < layer.len()
        invariant
            r <= layer.len(),
            forall|j: int| 0 <= j < r ==> row_passes(#[trigger] layer[j], check, layers as nat),
        decreases layer.len() - r,
    {
        if !check_row(&layer[r], check, layers) {
            return false;
        }
        r += 1;
    }
    true
}

fn check_table(table: &Vec<Vec<Vec<Action>>>, check: Check) -> (ok: bool)
    ensures
        ok == table_passes(*table, check),
{
    let mut l: usize = 0;
    while l < table.len()
        invariant
            l <= table.len(),
            forall|j: int|
                0 <= j < l ==> layer_passes(#[trigger] table[j], check, table.len() as nat),
        decreases table.len() - l,
    {
        if !check_layer(&table[l], check, table.len()) {
            return false;
        }
        l += 1;
    }
    true
}

fn check_layer_shape(layer: &Vec<Vec<Action>>, rows: usize, cols: usize) -> (ok: bool)
    ensures
        ok == layer_shaped(*layer, rows as nat, cols as nat),
{
    if layer.len() != rows {
        return false;
    }
    let mut r: usize = 0;
    while r < layer.len()
        invariant
            r <= layer.len(),
            layer.len() == rows,
            forall|j: int| 0 <= j < r ==> (#[trigger] layer[j]).len() == cols,
        decreases layer.len() - r,
    {
        if layer[r].len() != cols {
            return false;
        }
        r += 1;
    }
    true
}

fn check_rectangular(table: &Vec<Vec<Vec<Action>>>, rows: usize, cols: usize) -> (ok: bool)
    requires
        rows == table_rows(*table),
        cols == table_cols(*table),
    ensures
        ok == rectangular(*table),
{
    let mut l: usize = 0;
    while l < table.len()
        invariant
            l <= table.len(),
            rows == table_rows(*table),
            cols == table_cols(*table),
            forall|j: int|
                0 <= j < l ==> layer_shaped(#[trigger] table[j], rows as nat, cols as nat),
        decreases table.len() - l,
    {
        if !check_layer_shape(&table[l], rows, cols) {
            return false;
        }
        l += 1;
    }
    true
}

/// A sound layer table. Layer 0 is the base layer.
pub struct Layers {
    rows: usize,
    cols: usize,
    table: Vec<Vec<Vec<Action>>>,
}

impl Layers {
    /// The table itself: `table()[l][r][c]` is the action of layer `l` at
    /// row `r`, column `c`.
    pub closed spec fn table(&self) -> Vec<Vec<Vec<Action>>> {
        self.table
    }

    /// The numbers of rows and columns kept beside the table are its own.
    pub closed spec fn sized(&self) -> bool {
        &&& self.rows == table_rows(self.table)
        &&& self.cols == table_cols(self.table)
    }

    /// The table is sound.
    pub open spec fn wf(&self) -> bool {
        table_sound(self.table()) && self.sized()
    }

    /// Number of layers.
    pub open spec fn count(&self) -> nat {
        self.table().len() as nat
    }

    /// Number of matrix rows.
    pub open spec fn spec_rows(&self) -> nat {
        table_rows(self.table())
    }

    /// Number of matrix columns.
    pub open spec fn spec_cols(&self) -> nat {
        table_cols(self.table())
    }

    /// The action of layer `layer` at `at`, if both lie inside the table.
    pub open spec fn spec_get(&self, layer: int, at: Coordinate) -> Option<Action> {
        if 0 <= layer < self.count() && at.row < self.spec_rows() && at.col < self.spec_cols() {
            Some(self.table()[layer][at.row as int][at.col as int])
        } else {
            None
        }
    }

    /// Takes a table over if it is sound, and says what is wrong with it
    /// if it is not.
    pub fn new(table: Vec<Vec<Vec<Action>>>) -> (res: Result<Layers, ConfigError>)
        ensures
            res is Ok <==> table_sound(table),
            res matches Ok(layers) ==> layers.wf() && layers.table() == table,
            res matches Err(e) ==> e == table_fault(table),
    {
        if table.len() == 0 {
            return Err(ConfigError::NoLayers);
        }
        let rows: usize = table[0].len();
        let cols: usize = if rows == 0 {
            0
        } else {
            table[0][0].len()
        };
        if !check_rectangular(&table, rows, cols) {
            return Err(ConfigError::Ragged);
        }
        if !check_table(&table, Check::Nesting) {
            return Err(ConfigError::TooDeep);
        }
        if !check_table(&table, Check::LayerRefs) {
            return Err(ConfigError::LayerOutOfRange);
        }
        Ok(Layers { rows, cols, table })
    }

    /// Number of layers.
    pub fn layer_count(&self) -> (n: usize)
        requires
            self.wf(),
        ensures
            n == self.count(),
            n > 0,
    {
        self.table.len()
    }

    /// Number of matrix rows.
    pub fn rows(&self) -> (n: usize)
        requires
            self.wf(),
        ensures
            n == self.spec_rows(),
    {
        self.rows
    }

    /// Number of matrix columns.
    pub fn cols(&self) -> (n: usize)
        requires
            self.wf(),
        ensures
            n == self.spec_cols(),
    {
        self.cols
    }

    /// The action of layer `layer` at `at`; `None` outside the table.
    pub fn get(&self, layer: usize, at: Coordinate) -> (res: Option<&Action>)
        requires
            self.wf(),
        ensures
            res matches Some(a) ==> self.spec_get(layer as int, at) == Some(*a),
            res is None ==> self.spec_get(layer as int, at) is None,
    {
        if layer < self.table.len() && at.row < self.rows && at.col < self.cols {
            assert(layer_shaped(
                self.table[layer as int],
                table_rows(self.table),
                table_cols(self.table),
            ));
            Some(&self.table[layer][at.row][at.col])
        } else {
            None
        }
    }
}

} // verus!
