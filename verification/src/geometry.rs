//! The dimensions of the matrix that media packets are arranged in for error correction.

use crate::fec::{FecHeader, Orientation};
use vstd::prelude::*;

verus! {

/// Why a FEC header does not give the dimensions of the matrix.
#[derive(Debug, Clone, Copy, PartialEq, Eq, Structural)]
pub enum FecGeometryError {
    /// We can't work out the FEC settings given a 'row' packet, we need the headers from a
    /// 'column' packet
    ColumnPacketRequired,
    BadNumberOfRows(u8),
    BadNumberOfColumns(u8),
    BadMatrixSize(u16),
}

#[derive(Debug, Clone, Copy, PartialEq, Eq, Structural)]
pub struct FecGeometry {
    /// Number of columns
    pub l: u8,
    /// Number of rows
    pub d: u8,
    /// Type of error correction, as the FEC header gives it
    pub fec_type: u8,
}

/// The minimum number of allowed rows or columns
pub const MIN_LENGTH: u8 = 4;

/// The maximum number of allowed rows or columns
pub const MAX_LENGTH: u8 = 20;

/// The maximum overall size of the FEC matrix (rows * columns)
pub const MAX_AREA: u16 = 100;

/// The geometry that `header` describes, or why it describes none.
pub open spec fn geometry_of(header: FecHeader) -> Result<FecGeometry, FecGeometryError> {
    if header.orientation == Orientation::Row {
        Err(FecGeometryError::ColumnPacketRequired)
    } else if !(MIN_LENGTH <= header.offset <= MAX_LENGTH) {
        Err(FecGeometryError::BadNumberOfColumns(header.offset))
    } else if !(MIN_LENGTH <= header.number_associated <= MAX_LENGTH) {
        Err(FecGeometryError::BadNumberOfRows(header.number_associated))
    } else if header.number_associated * header.offset > MAX_AREA {
        Err(
            FecGeometryError::BadMatrixSize(
                (header.number_associated * header.offset) as u16,
            ),
        )
    } else {
        Ok(
            FecGeometry {
                l: header.offset,
                d: header.number_associated,
                fec_type: header.fec_type,
            },
        )
    }
}

impl FecGeometry {
    /// Whether the dimensions are within what is allowed.
    pub open spec fn wf(self) -> bool {
        &&& MIN_LENGTH <= self.l <= MAX_LENGTH
        &&& MIN_LENGTH <= self.d <= MAX_LENGTH
        &&& self.l * self.d <= MAX_AREA
    }

    /// Whether `header` belongs to a FEC packet for a matrix of this geometry.
    pub open spec fn agrees_with(self, header: FecHeader) -> bool {
        &&& self.fec_type == header.fec_type
        &&& match header.orientation {
            Orientation::Column => self.d == header.number_associated && self.l == header.offset,
            Orientation::Row => self.l == header.number_associated,
        }
    }

    /// The number of packets in a matrix for which `header` describes a column.
    pub fn size_of(header: &FecHeader) -> (size: u16)
        ensures
            size == header.number_associated * header.offset,
    {
        assert(header.number_associated * header.offset <= 255 * 255) by (nonlinear_arith)
            requires
                header.number_associated <= 255,
                header.offset <= 255,
        ;
        header.number_associated as u16 * header.offset as u16
    }

    /// The geometry that a FEC header describes.
    pub fn from_header(header: &FecHeader) -> (res: Result<FecGeometry, FecGeometryError>)
        ensures
            res == geometry_of(*header),
            res matches Ok(geometry) ==> geometry.wf() && geometry.agrees_with(*header),
            res is Ok <==> {
                &&& header.orientation == Orientation::Column
                &&& 4 <= header.offset <= 20
                &&& 4 <= header.number_associated <= 20
                &&& header.number_associated * header.offset <= 100
            },
            res matches Ok(geometry) ==> {
                &&& geometry.l == header.offset
                &&& geometry.d == header.number_associated
                &&& geometry.fec_type == header.fec_type
            },
    {
        if header.orientation == Orientation::Row {
            Err(FecGeometryError::ColumnPacketRequired)
        } else if header.offset > MAX_LENGTH || header.offset < MIN_LENGTH {
            Err(FecGeometryError::BadNumberOfColumns(header.offset))
        } else if header.number_associated > MAX_LENGTH || header.number_associated < MIN_LENGTH {
            Err(FecGeometryError::BadNumberOfRows(header.number_associated))
        } else if Self::size_of(header) > MAX_AREA {
            Err(FecGeometryError::BadMatrixSize(Self::size_of(header)))
        } else {
            assert(header.number_associated * header.offset == header.offset
                * header.number_associated) by (nonlinear_arith);
            Ok(
                FecGeometry {
                    l: header.offset,
                    d: header.number_associated,
                    fec_type: header.fec_type,
                },
            )
        }
    }

    /// Whether a FEC header belongs to a matrix of this geometry.
    pub fn matches(&self, header: &FecHeader) -> (res: bool)
        ensures
            res == self.agrees_with(*header),
            res <==> {
                &&& self.fec_type == header.fec_type
                &&& self.l == if header.orientation == Orientation::Column {
                    header.offset
                } else {
                    header.number_associated
                }
                &&& header.orientation == Orientation::Column ==> self.d
                    == header.number_associated
            },
    {
        let oriented_ok: bool = match header.orientation {
            Orientation::Column => {
                self.d == header.number_associated && self.l == header.offset
            },
            Orientation::Row => self.l == header.number_associated,
        };
        oriented_ok && self.fec_type == header.fec_type
    }
}

/// A header gives a geometry exactly where it is one of a column, there are from 4 to 20 columns and
/// from 4 to 20 rows, and the matrix has room for 100 packets at most; the geometry is then the one
/// that the header describes.  Otherwise the first of these that does not hold is the reason.
pub proof fn law_allowed_geometries(header: FecHeader)
    ensures
        match geometry_of(header) {
            Ok(geometry) => {
                &&& header.orientation == Orientation::Column
                &&& 4 <= header.offset <= 20
                &&& 4 <= header.number_associated <= 20
                &&& header.number_associated * header.offset <= 100
                &&& geometry.l == header.offset
                &&& geometry.d == header.number_associated
                &&& geometry.fec_type == header.fec_type
            },
            Err(FecGeometryError::ColumnPacketRequired) => header.orientation == Orientation::Row,
            Err(FecGeometryError::BadNumberOfColumns(n)) => {
                &&& header.orientation == Orientation::Column
                &&& n == header.offset
                &&& n < 4 || n > 20
            },
            Err(FecGeometryError::BadNumberOfRows(n)) => {
                &&& header.orientation == Orientation::Column
                &&& 4 <= header.offset <= 20
                &&& n == header.number_associated
                &&& n < 4 || n > 20
            },
            Err(FecGeometryError::BadMatrixSize(n)) => {
                &&& header.orientation == Orientation::Column
                &&& 4 <= header.offset <= 20
                &&& 4 <= header.number_associated <= 20
                &&& n == header.number_associated * header.offset
                &&& n > 100
            },
        },
{
    assert(header.number_associated * header.offset <= 255 * 255) by (nonlinear_arith)
        requires
            header.number_associated <= 255,
            header.offset <= 255,
    ;
}

/// It makes no difference to whether a geometry is allowed which of its dimensions is called rows
/// and which columns.
pub proof fn law_transposed_geometry_is_allowed(header: FecHeader, transposed: FecHeader)
    requires
        header.orientation == Orientation::Column,
        transposed.orientation == Orientation::Column,
        transposed.offset == header.number_associated,
        transposed.number_associated == header.offset,
    ensures
        geometry_of(header) is Ok <==> geometry_of(transposed) is Ok,
        geometry_of(header) matches Ok(geometry) ==> {
            &&& geometry_of(transposed)->Ok_0.l == geometry.d
            &&& geometry_of(transposed)->Ok_0.d == geometry.l
        },
{
    assert(header.number_associated * header.offset == header.offset * header.number_associated)
        by (nonlinear_arith);
}

/// With a geometry all smaller ones are allowed that still have four rows and columns.
pub proof fn law_smaller_geometry_is_allowed(header: FecHeader, smaller: FecHeader)
    requires
        geometry_of(header) is Ok,
        smaller.orientation == Orientation::Column,
        4 <= smaller.offset <= header.offset,
        4 <= smaller.number_associated <= header.number_associated,
    ensures
        geometry_of(smaller) is Ok,
{
    assert(smaller.number_associated * smaller.offset <= header.number_associated * header.offset)
        by (nonlinear_arith)
        requires
            smaller.offset <= header.offset,
            smaller.number_associated <= header.number_associated,
    ;
}

/// A matrix takes the FEC packets for its own columns and rows, and no others: the geometry that a
/// header gives agrees with another header for columns exactly where that gives the same geometry,
/// and with one for rows exactly where that protects as many media packets as there are columns, by
/// the same type of error correction.
pub proof fn law_geometry_agrees_with_own_headers(header: FecHeader, other: FecHeader)
    requires
        geometry_of(header) is Ok,
    ensures
        geometry_of(header)->Ok_0.agrees_with(header),
        other.orientation == Orientation::Column ==> (geometry_of(header)->Ok_0.agrees_with(other)
            <==> geometry_of(other) == geometry_of(header)),
        other.orientation == Orientation::Row ==> (geometry_of(header)->Ok_0.agrees_with(other)
            <==> other.number_associated == header.offset && other.fec_type == header.fec_type),
{
}

} // verus!
