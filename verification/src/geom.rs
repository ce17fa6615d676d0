//! Integer vectors, and the arithmetic of packing coordinates into one index.

use vstd::prelude::*;

verus! {

/// A signed integer vector, in voxel units.
#[derive(Clone, Copy, Debug, PartialEq, Eq, Structural)]
pub struct IVec3 {
    pub x: i32,
    pub y: i32,
    pub z: i32,
}

/// An unsigned integer vector: the size of a grid, or a cell inside one.
#[derive(Clone, Copy, Debug, PartialEq, Eq, Structural)]
pub struct UVec3 {
    pub x: u32,
    pub y: u32,
    pub z: u32,
}

/// A sum or a difference of two `i32`, reduced to the range of `i32` the way
/// two's complement does.
pub open spec fn wrap_i32(n: int) -> int {
    if n > i32::MAX {
        n - 0x1_0000_0000
    } else if n < i32::MIN {
        n + 0x1_0000_0000
    } else {
        n
    }
}

impl IVec3 {
    pub fn new(x: i32, y: i32, z: i32) -> (v: IVec3)
        ensures
            v == (IVec3 { x, y, z }),
    {
        IVec3 { x, y, z }
    }

    /// The same value on every axis.
    pub fn splat(n: i32) -> (v: IVec3)
        ensures
            v == (IVec3 { x: n, y: n, z: n }),
    {
        IVec3 { x: n, y: n, z: n }
    }
}

impl UVec3 {
    pub fn new(x: u32, y: u32, z: u32) -> (v: UVec3)
        ensures
            v == (UVec3 { x, y, z }),
    {
        UVec3 { x, y, z }
    }

    /// The same value on every axis.
    pub fn splat(n: u32) -> (v: UVec3)
        ensures
            v == (UVec3 { x: n, y: n, z: n }),
    {
        UVec3 { x: n, y: n, z: n }
    }
}

/// A column and a row pack into one index below `columns * rows`.
pub proof fn lemma_pack_bound(column: int, row: int, columns: int, rows: int)
    by (nonlinear_arith)
    requires
        0 <= column < columns,
        0 <= row < rows,
    ensures
        0 <= column + columns * row < columns * rows,
        0 <= columns * row,
{
}

/// Packing loses nothing: the column and the row come back out of the index.
pub proof fn lemma_pack_unpack(column: int, row: int, columns: int)
    requires
        0 <= column < columns,
    ensures
        (column + columns * row) % columns == column,
        (column + columns * row) / columns == row,
{
    assert(columns * row == row * columns) by (nonlinear_arith);
    vstd::arithmetic::div_mod::lemma_fundamental_div_mod_converse(
        column + columns * row,
        columns,
        row,
        column,
    );
}

/// Every index below `columns * rows` is the packing of its own column and row.
pub proof fn lemma_unpack_bound(index: int, columns: int, rows: int)
    requires
        0 <= index < columns * rows,
        0 < columns,
    ensures
        0 <= index % columns < columns,
        0 <= index / columns < rows,
        index == index % columns + columns * (index / columns),
{
    vstd::arithmetic::div_mod::lemma_fundamental_div_mod(index, columns);
    assert(0 <= index / columns) by (nonlinear_arith)
        requires
            0 <= index,
            0 < columns,
    ;
    let q = index / columns;
    let r = index % columns;
    assert(q < rows) by (nonlinear_arith)
        requires
            index == columns * q + r,
            0 <= r,
            index < columns * rows,
            0 < columns,
    ;
}

} // verus!
