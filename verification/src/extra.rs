//! The ZIP64 extended-information extra field of a central-directory record.
use vstd::prelude::*;

use crate::bytes::{agrees, le16, le64, le_u16, le_u64};
use crate::error::{Error, FormatError};

verus! {

/// Values that the ZIP64 extra field supplies in place of saturated 32-bit
/// header fields.
#[derive(Clone, Copy)]
pub struct Zip64Extra {
    pub uncompressed_size: Option<u64>,
    pub compressed_size: Option<u64>,
    pub local_header_offset: Option<u64>,
}

/// Model of reading one little-endian `u64` at `pos` of a field.
pub open spec fn spec_extra_u64(field: Seq<u8>, pos: int) -> Result<u64, FormatError> {
    if pos + 8 > usize::MAX {
        Err(FormatError::InvalidOffset)
    } else if pos + 8 > field.len() {
        Err(FormatError::InvalidRecord)
    } else {
        Ok(le64(field, pos) as u64)
    }
}

/// The values of a ZIP64 extra field body: each needed value, in the order
/// uncompressed size, compressed size, local-header offset, takes the next
/// eight bytes.
pub open spec fn spec_zip64_fields(
    field: Seq<u8>,
    need_uncompressed: bool,
    need_compressed: bool,
    need_offset: bool,
) -> Result<Zip64Extra, FormatError> {
    let compressed_at: int = if need_uncompressed {
        8
    } else {
        0
    };
    let offset_at: int = compressed_at + if need_compressed {
        8int
    } else {
        0int
    };
    let needed: int = offset_at + if need_offset {
        8int
    } else {
        0int
    };
    if field.len() < needed {
        Err(FormatError::InvalidRecord)
    } else {
        Ok(
            Zip64Extra {
                uncompressed_size: if need_uncompressed {
                    Some(le64(field, 0) as u64)
                } else {
                    None
                },
                compressed_size: if need_compressed {
                    Some(le64(field, compressed_at) as u64)
                } else {
                    None
                },
                local_header_offset: if need_offset {
                    Some(le64(field, offset_at) as u64)
                } else {
                    None
                },
            },
        )
    }
}

/// The ZIP64 values of an extra-field area: the first field of kind 1 is
/// decoded; a field that overruns the area, or an area without such a field,
/// is an invalid record.
pub open spec fn spec_zip64_extra(
    extra: Seq<u8>,
    need_uncompressed: bool,
    need_compressed: bool,
    need_offset: bool,
) -> Result<Zip64Extra, FormatError>
    decreases extra.len(),
{
    if extra.len() < 4 {
        Err(FormatError::InvalidRecord)
    } else {
        let kind = le16(extra, 0);
        let len = le16(extra, 2);
        if len > extra.len() - 4 {
            Err(FormatError::InvalidRecord)
        } else if kind != 1 {
            spec_zip64_extra(
                extra.subrange(4 + len, extra.len() as int),
                need_uncompressed,
                need_compressed,
                need_offset,
            )
        } else {
            spec_zip64_fields(
                extra.subrange(4, 4 + len),
                need_uncompressed,
                need_compressed,
                need_offset,
            )
        }
    }
}

/// Reads the little-endian `u64` at `*pos` and moves `*pos` past it.
pub(crate) fn read_extra_u64<E>(extra: &[u8], pos: &mut usize) -> (r: Result<u64, Error<E>>)
    ensures
        agrees(r, spec_extra_u64(extra@, *old(pos) as int), true),
        r is Ok ==> *final(pos) == *old(pos) + 8,
        r is Err ==> *final(pos) == *old(pos),
{
    let end: usize = match pos.checked_add(8) {
        Some(e) => e,
        None => {
            return Err(Error::Format(FormatError::InvalidOffset));
        },
    };
    if end > extra.len() {
        return Err(Error::Format(FormatError::InvalidRecord));
    }
    let value: u64 = le_u64(extra, *pos);
    *pos = end;
    Ok(value)
}

/// Decodes the ZIP64 extended-information field from an extra-field area.
pub(crate) fn find_zip64_extra<E>(
    extra: &[u8],
    need_uncompressed: bool,
    need_compressed: bool,
    need_offset: bool,
) -> (r: Result<Zip64Extra, Error<E>>)
    ensures
        agrees(
            r,
            spec_zip64_extra(extra@, need_uncompressed, need_compressed, need_offset),
            true,
        ),
{
    let n: usize = extra.len();
    let mut at: usize = 0;
    assert(extra@.subrange(0, n as int) =~= extra@);
    while n - at >= 4
        invariant
            at <= n,
            n == extra@.len(),
            spec_zip64_extra(extra@, need_uncompressed, need_compressed, need_offset)
                == spec_zip64_extra(
                extra@.subrange(at as int, n as int),
                need_uncompressed,
                need_compressed,
                need_offset,
            ),
        decreases n - at,
    {
        let ghost rest = extra@.subrange(at as int, n as int);
        let kind: u16 = le_u16(extra, at);
        let len: usize = le_u16(extra, at + 2) as usize;
        assert(le16(rest, 0) == kind);
        assert(le16(rest, 2) == len);
        if len > n - at - 4 {
            return Err(Error::Format(FormatError::InvalidRecord));
        }
        let field_start: usize = at + 4;
        let field_end: usize = field_start + len;
        if kind == 1 {
            let field = &extra[field_start..field_end];
            assert(field@ =~= rest.subrange(4, 4 + len));
            let mut pos: usize = 0;
            let mut out = Zip64Extra {
                uncompressed_size: None,
                compressed_size: None,
                local_header_offset: None,
            };
            if need_uncompressed {
                out.uncompressed_size = Some(read_extra_u64(field, &mut pos)?);
            }
            if need_compressed {
                out.compressed_size = Some(read_extra_u64(field, &mut pos)?);
            }
            if need_offset {
                out.local_header_offset = Some(read_extra_u64(field, &mut pos)?);
            }
            return Ok(out);
        }
        assert(rest.subrange(4 + len, rest.len() as int) =~= extra@.subrange(
            field_end as int,
            n as int,
        ));
        at = field_end;
    }
    Err(Error::Format(FormatError::InvalidRecord))
}

} // verus!
