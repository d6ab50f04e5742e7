use vstd::prelude::*;

verus! {

/// Vertical reference of the heights that a terrain source reports.
#[derive(Debug, Clone, Copy, PartialEq, Eq, Structural)]
pub enum VerticalDatum {
    Egm96,
    Egm2008,
    Wgs84Ellipsoid,
    Local,
}

impl Default for VerticalDatum {
    /// Heights are taken as EGM96 geoid heights unless a source says otherwise.
    fn default() -> (r: Self)
        ensures
            r == VerticalDatum::Egm96,
    {
        VerticalDatum::Egm96
    }
}

/// Antenna polarisation handed to the propagation model.
#[derive(Debug, Clone, Copy, PartialEq, Eq, Structural)]
pub enum Polarization {
    Horizontal,
    Vertical,
}

/// Kind of path that the propagation model found.
#[derive(Debug, Clone, Copy, PartialEq, Eq, Structural)]
pub enum PathType {
    LineOfSight,
    TransHorizon,
}

/// The polarisation that a numeric code selects: code 2 is vertical, every
/// other code, and a missing one, horizontal.
pub open spec fn polarization_of(code: Option<u8>) -> Polarization {
    if code == Some(2u8) {
        Polarization::Vertical
    } else {
        Polarization::Horizontal
    }
}

/// Reads a polarisation code: `Some(2)` is vertical, anything else horizontal.
pub fn to_polarization(code: Option<u8>) -> (r: Polarization)
    ensures
        code == Some(2u8) ==> r == Polarization::Vertical,
        code != Some(2u8) ==> r == Polarization::Horizontal,
        r == polarization_of(code),
{
    match code {
        Some(2) => Polarization::Vertical,
        _ => Polarization::Horizontal,
    }
}

/// The short name under which a path type is reported.
pub fn path_type_label(path_type: PathType) -> (r: &'static str)
    ensures
        path_type == PathType::LineOfSight ==> r@ == "los"@,
        path_type == PathType::TransHorizon ==> r@ == "transhorizon"@,
{
    match path_type {
        PathType::LineOfSight => "los",
        PathType::TransHorizon => "transhorizon",
    }
}

/// An antenna that radiates equally in every direction.
pub struct IsotropicAntenna;

/// The ITU-R P.1812 propagation model.
pub struct P1812Model;

} // verus!
