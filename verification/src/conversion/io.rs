//! Addresses of segments for background reads and writes.
use vstd::prelude::*;
use crate::text::text;
use crate::types::{DiskId, Segment};

verus! {

/// Error of a background read or write.
#[derive(Debug)]
pub enum ConversionIoError {
    Topology(String),
    Io(String),
}

/// Model of an I/O error.
pub enum ConversionIoModel {
    Topology(Seq<char>),
    Io(Seq<char>),
}

impl View for ConversionIoError {
    type V = ConversionIoModel;

    open spec fn view(&self) -> ConversionIoModel {
        match self {
            ConversionIoError::Topology(m) => ConversionIoModel::Topology(m@),
            ConversionIoError::Io(m) => ConversionIoModel::Io(m@),
        }
    }
}

impl ConversionIoModel {
    /// Text of the error.
    pub open spec fn message(self) -> Seq<char> {
        match self {
            ConversionIoModel::Topology(m) => "conversion DiskIO topology error: "@ + m,
            ConversionIoModel::Io(m) => "conversion DiskIO operation failed: "@ + m,
        }
    }
}

impl ConversionIoError {
    /// Text of the error.
    pub fn message(&self) -> (r: String)
        ensures
            r@ == self@.message(),
    {
        match self {
            ConversionIoError::Topology(m) => {
                let mut out = text("conversion DiskIO topology error: ");
                out.append(m.as_str());
                out
            },
            ConversionIoError::Io(m) => {
                let mut out = text("conversion DiskIO operation failed: ");
                out.append(m.as_str());
                out
            },
        }
    }
}

/// Where a segment lies on its disk.
#[derive(Debug, Clone, Copy, PartialEq, Eq, Structural)]
pub struct SegmentAddress {
    pub disk_id: DiskId,
    pub zone_index: u32,
    pub unit_offset: u64,
    pub unit_count: u32,
    pub unit_size: u32,
}

/// The disk of a segment.
pub fn disk_id(segment: &Segment) -> (r: Result<DiskId, ConversionIoError>)
    ensures
        match r {
            Ok(id) => segment.disk_id == Some(id),
            Err(error) => segment.disk_id is None && error@ == ConversionIoModel::Topology(
                "segment has no disk id"@,
            ),
        },
{
    match segment.disk_id {
        Some(id) => Ok(id),
        None => Err(ConversionIoError::Topology(text("segment has no disk id"))),
    }
}

/// Where a segment lies, or why it cannot be addressed.
pub open spec fn address_of(segment: Segment, unit_bytes: u64) -> Result<
    SegmentAddress,
    ConversionIoModel,
> {
    if unit_bytes > u32::MAX {
        Err(ConversionIoModel::Io("segment unit size exceeds u32"@))
    } else {
        match segment.disk_id {
            None => Err(ConversionIoModel::Topology("segment has no disk id"@)),
            Some(disk_id) => Ok(
                SegmentAddress {
                    disk_id,
                    zone_index: segment.zone_index,
                    unit_offset: segment.unit_offset,
                    unit_count: segment.unit_count,
                    unit_size: unit_bytes as u32,
                },
            ),
        }
    }
}

/// Where a segment lies.
pub fn target(segment: &Segment, unit_bytes: u64) -> (r: Result<SegmentAddress, ConversionIoError>)
    ensures
        (match r {
            Ok(address) => Ok::<SegmentAddress, ConversionIoModel>(address),
            Err(error) => Err(error@),
        }) == address_of(*segment, unit_bytes),
{
    if unit_bytes > u32::MAX as u64 {
        return Err(ConversionIoError::Io(text("segment unit size exceeds u32")));
    }
    let disk_id = match disk_id(segment) {
        Ok(id) => id,
        Err(error) => {
            return Err(error);
        },
    };
    Ok(
        SegmentAddress {
            disk_id,
            zone_index: segment.zone_index,
            unit_offset: segment.unit_offset,
            unit_count: segment.unit_count,
            unit_size: unit_bytes as u32,
        },
    )
}

/// The length of a whole-segment read.
pub fn read_length(capacity: u64) -> (r: Result<u32, ConversionIoError>)
    ensures
        match r {
            Ok(length) => length == capacity,
            Err(error) => capacity > u32::MAX && error@ == ConversionIoModel::Io(
                "segment read size exceeds u32"@,
            ),
        },
{
    if capacity > u32::MAX as u64 {
        return Err(ConversionIoError::Io(text("segment read size exceeds u32")));
    }
    Ok(capacity as u32)
}

/// A segment is addressed by its own disk, zone, offset and length, in units of the
/// given size, where its disk is known and the size fits.
pub proof fn law_segments_are_addressed(segment: Segment, unit_bytes: u64)
    ensures
        address_of(segment, unit_bytes) is Ok <==> segment.disk_id is Some && unit_bytes <= u32::MAX,
        address_of(segment, unit_bytes) matches Ok(address) ==> Some(address.disk_id)
            == segment.disk_id && address.zone_index == segment.zone_index && address.unit_offset
            == segment.unit_offset && address.unit_count == segment.unit_count && address.unit_size
            == unit_bytes,
{
}

} // verus!
