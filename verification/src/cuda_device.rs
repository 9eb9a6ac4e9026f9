//! One physical GPU device selected for execution: its ordinal, display
//! name, and hardware UUID rendered as the canonical hyphenated lowercase
//! hex string.
//!
//! Talking to the device driver is outside work; its answer to a bind
//! attempt (the raw property bytes, or a failure message) enters here as a
//! `DeviceProbe` event. This module owns the identity rendering: the C
//! name field is cut at its first NUL, and the 16 raw UUID bytes are
//! formatted 8-4-4-4-12 in the driver-reported byte order, not re-ordered.

use crate::error::BackendError;
use crate::text::find_byte;
use vstd::prelude::*;

verus! {

/// The hyphen byte of the canonical UUID form.
pub const HYPHEN: u8 = 45;

/// The lowercase hex digit of a value below 16.
pub open spec fn hex_digit(n: u8) -> u8 {
    if n < 10 {
        (48 + n) as u8
    } else {
        (87 + n) as u8
    }
}

/// The two lowercase hex digits of one byte, high nibble first.
pub open spec fn byte_hex(b: u8) -> Seq<u8> {
    seq![hex_digit(b / 16), hex_digit(b % 16)]
}

/// The hex digits of `bytes[from..to]`, in byte order.
pub open spec fn hex_of_range(bytes: Seq<u8>, from: int, to: int) -> Seq<u8>
    decreases to - from,
{
    if from >= to {
        Seq::empty()
    } else {
        byte_hex(bytes[from]) + hex_of_range(bytes, from + 1, to)
    }
}

/// The canonical UUID string of 16 identity bytes: lowercase hex grouped
/// 4-2-2-2-6 bytes with hyphens, bytes taken verbatim in driver order.
pub open spec fn uuid_hex(bytes: Seq<u8>) -> Seq<u8> {
    hex_of_range(bytes, 0, 4) + seq![HYPHEN] + hex_of_range(bytes, 4, 6) + seq![HYPHEN]
        + hex_of_range(bytes, 6, 8) + seq![HYPHEN] + hex_of_range(bytes, 8, 10) + seq![HYPHEN]
        + hex_of_range(bytes, 10, 16)
}

/// The bytes of a C string field: everything before the first NUL, or the
/// whole field when no NUL is present.
pub open spec fn cstr_prefix(bytes: Seq<u8>) -> Seq<u8> {
    bytes.take(find_byte(bytes, 0))
}

/// Judges one driver status code: status zero is the driver's success
/// value; any other status is a device error carrying the driver's
/// human-readable message for that code.
pub fn cuda_result(status: u32, message: String) -> (r: Result<(), BackendError>)
    ensures
        status == 0 ==> r is Ok,
        status != 0 ==> r == Err::<(), BackendError>(BackendError::Cuda(message)),
{
    if status == 0 {
        Ok(())
    } else {
        Err(BackendError::Cuda(message))
    }
}

/// What the device driver answered to a bind attempt: the selected
/// device's raw properties (its NUL-terminated name field and its 16
/// identity bytes), or a failure with the driver's message.
#[derive(Debug)]
pub enum DeviceProbe {
    Properties { name: Vec<u8>, uuid: Vec<u8> },
    Failed(String),
}

/// A bound GPU device: ordinal, display name, canonical UUID string.
/// Immutable once created; shared by reference among the executors placed
/// on the device.
#[derive(Debug)]
pub struct CudaDevice {
    pub device_id: i32,
    pub name: Vec<u8>,
    pub uuid: Vec<u8>,
}

fn hex_digit_exec(n: u8) -> (r: u8)
    requires
        n < 16,
    ensures
        r == hex_digit(n),
{
    if n < 10 {
        48 + n
    } else {
        87 + n
    }
}

fn push_byte_hex(b: u8, out: &mut Vec<u8>)
    ensures
        final(out)@ == old(out)@ + byte_hex(b),
{
    let ghost pre = out@;
    out.push(hex_digit_exec(b / 16));
    out.push(hex_digit_exec(b % 16));
    proof {
        assert(final(out)@ =~= pre + byte_hex(b));
    }
}

proof fn lemma_hex_range_snoc(bytes: Seq<u8>, from: int, i: int)
    requires
        0 <= from <= i < bytes.len(),
    ensures
        hex_of_range(bytes, from, i + 1) == hex_of_range(bytes, from, i) + byte_hex(bytes[i]),
    decreases i - from,
{
    if from == i {
        assert(hex_of_range(bytes, from, from) =~= Seq::<u8>::empty());
        assert(hex_of_range(bytes, from + 1, i + 1) =~= Seq::<u8>::empty());
        assert(hex_of_range(bytes, from, i + 1) == byte_hex(bytes[from]) + hex_of_range(
            bytes,
            from + 1,
            i + 1,
        ));
        assert(hex_of_range(bytes, from, i + 1) =~= byte_hex(bytes[i]));
        assert(hex_of_range(bytes, from, i) + byte_hex(bytes[i]) =~= byte_hex(bytes[i]));
    } else {
        lemma_hex_range_snoc(bytes, from + 1, i);
        assert(byte_hex(bytes[from]) + (hex_of_range(bytes, from + 1, i) + byte_hex(bytes[i]))
            =~= (byte_hex(bytes[from]) + hex_of_range(bytes, from + 1, i)) + byte_hex(bytes[i]));
    }
}

fn push_hex_range(bytes: &[u8], from: usize, to: usize, out: &mut Vec<u8>)
    requires
        from <= to <= bytes@.len(),
    ensures
        final(out)@ == old(out)@ + hex_of_range(bytes@, from as int, to as int),
{
    let ghost pre = out@;
    let mut i: usize = from;
    proof {
        assert(hex_of_range(bytes@, from as int, from as int) =~= Seq::<u8>::empty());
        assert(out@ =~= pre + hex_of_range(bytes@, from as int, from as int));
    }
    while i < to
        invariant
            from <= i <= to <= bytes@.len(),
            out@ == pre + hex_of_range(bytes@, from as int, i as int),
        decreases to - i,
    {
        push_byte_hex(bytes[i], out);
        proof {
            lemma_hex_range_snoc(bytes@, from as int, i as int);
        }
        i = i + 1;
    }
}

/// Renders 16 identity bytes as the canonical hyphenated lowercase hex
/// UUID string, 36 bytes long.
pub fn format_uuid(bytes: &[u8]) -> (r: Vec<u8>)
    requires
        bytes@.len() == 16,
    ensures
        r@ == uuid_hex(bytes@),
{
    let mut out: Vec<u8> = Vec::new();
    push_hex_range(bytes, 0, 4, &mut out);
    out.push(HYPHEN);
    push_hex_range(bytes, 4, 6, &mut out);
    out.push(HYPHEN);
    push_hex_range(bytes, 6, 8, &mut out);
    out.push(HYPHEN);
    push_hex_range(bytes, 8, 10, &mut out);
    out.push(HYPHEN);
    push_hex_range(bytes, 10, 16, &mut out);
    proof {
        assert(out@ =~= uuid_hex(bytes@));
    }
    out
}

/// Cuts a driver-reported C string field at its first NUL.
pub fn cstr_prefix_exec(bytes: &[u8]) -> (r: Vec<u8>)
    ensures
        r@ == cstr_prefix(bytes@),
{
    let cut = crate::text::index_of(bytes, 0);
    proof {
        crate::text::lemma_find_byte_props(bytes@, 0);
    }
    vstd::slice::slice_to_vec(vstd::slice::slice_subrange(bytes, 0, cut))
}

impl CudaDevice {
    /// Binds the device at `device_id`, judged from the driver's answer: a
    /// driver failure becomes a device error carrying the driver's
    /// message and is fatal to this bind attempt only; on success the
    /// binding holds the ordinal, the name cut at its first NUL, and the
    /// canonical UUID rendering of the 16 identity bytes.
    pub fn new(device_id: i32, probe: DeviceProbe) -> (r: Result<CudaDevice, BackendError>)
        requires
            probe matches DeviceProbe::Properties { uuid, .. } ==> uuid@.len() == 16,
        ensures
            match probe {
                DeviceProbe::Failed(m) => r matches Err(e) && e == BackendError::Cuda(m),
                DeviceProbe::Properties { name, uuid } => r matches Ok(d) && d.device_id
                    == device_id && d.name@ == cstr_prefix(name@) && d.uuid@ == uuid_hex(uuid@),
            },
    {
        match probe {
            DeviceProbe::Failed(m) => Err(BackendError::Cuda(m)),
            DeviceProbe::Properties { name, uuid } => Ok(
                CudaDevice {
                    device_id,
                    name: cstr_prefix_exec(name.as_slice()),
                    uuid: format_uuid(uuid.as_slice()),
                },
            ),
        }
    }

    /// The bound device's ordinal.
    pub fn device_id(&self) -> (r: i32)
        ensures
            r == self.device_id,
    {
        self.device_id
    }

    /// The bound device's display name.
    pub fn name(&self) -> (r: &Vec<u8>)
        ensures
            r@ == self.name@,
    {
        &self.name
    }

    /// The bound device's canonical UUID string.
    pub fn uuid(&self) -> (r: &Vec<u8>)
        ensures
            r@ == self.uuid@,
    {
        &self.uuid
    }
}

} // verus!
