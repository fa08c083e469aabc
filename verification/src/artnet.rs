//! Art-Net egress: capping a payload to what one packet carries, and
//! encoding it as an ArtDmx packet.

use artnet_protocol::{ArtCommand, Output, PortAddress};
use vstd::prelude::*;

verus! {

/// UDP port on which every Art-Net node listens.
pub const ARTNET_PORT: u16 = 6454;

/// Number of channel bytes that one ArtDmx packet can carry.
pub const CHANNEL_CAPACITY: usize = 512;

/// The largest universe number that Art-Net can address (15 bits).
pub const MAX_PORT_ADDRESS: u16 = 32767;

/// Why a frame could not be encoded for Art-Net.
#[derive(Debug, Clone, Copy, PartialEq, Eq)]
pub enum EncodeError {
    /// The output universe is above [`MAX_PORT_ADDRESS`].
    UniverseOutOfRange { universe: u16 },
    /// The frame carries no channel value at all.
    EmptyPayload,
}

/// The error type of the `artnet_protocol` crate, carried as an opaque value.
#[verifier::external_type_specification]
#[verifier::external_body]
pub struct ExArtnetError(artnet_protocol::Error);

/// The first [`CHANNEL_CAPACITY`] values, or all of them if there are fewer.
pub open spec fn capped(values: Seq<u8>) -> Seq<u8> {
    if values.len() > CHANNEL_CAPACITY {
        values.take(CHANNEL_CAPACITY as int)
    } else {
        values
    }
}

/// Capping keeps the values in place and cuts after the 512th: the result
/// is the longest prefix of at most [`CHANNEL_CAPACITY`] values.
pub proof fn lemma_capped_is_prefix(values: Seq<u8>)
    ensures
        capped(values).len() == if values.len() > 512 {
            512
        } else {
            values.len()
        },
        forall|i: int| 0 <= i < capped(values).len() ==> capped(values)[i] == values[i],
{
}

/// The data block of an ArtDmx packet: the payload, with one zero byte
/// added where its length is odd.
pub open spec fn padded(data: Seq<u8>) -> Seq<u8> {
    if data.len() % 2 == 0 {
        data
    } else {
        data.push(0u8)
    }
}

/// The eight bytes that open every Art-Net packet: `Art-Net` and a zero.
pub open spec fn art_net_id() -> Seq<u8> {
    seq![0x41u8, 0x72u8, 0x74u8, 0x2du8, 0x4eu8, 0x65u8, 0x74u8, 0x00u8]
}

/// The ArtDmx packet for a port address and a payload: the identifier, the
/// opcode 0x5000 (low byte first), protocol version 14, sequence 0,
/// physical port 0, the port address (low byte first), the length of the
/// data block (high byte first), and the data block.
pub open spec fn art_dmx_packet(port_address: u16, data: Seq<u8>) -> Seq<u8> {
    let block = padded(data);
    art_net_id() + seq![
        0x00u8,
        0x50u8,
        0u8,
        14u8,
        0u8,
        0u8,
        (port_address % 256) as u8,
        (port_address / 256) as u8,
        (block.len() / 256) as u8,
        (block.len() % 256) as u8,
    ] + block
}

/// What can be encoded: a universe that Art-Net can address, with at
/// least one value and no more than a packet carries.
pub open spec fn encodable(universe: u16, data: Seq<u8>) -> bool {
    &&& universe <= MAX_PORT_ADDRESS
    &&& 0 < data.len()
    &&& data.len() <= CHANNEL_CAPACITY
}

/// What an ArtDmx packet carries: the port address in bytes 14 and 15, the
/// length of the data block in bytes 16 and 17, and from byte 18 on the
/// payload, value for value in the same order.
pub proof fn lemma_packet_carries(port_address: u16, data: Seq<u8>)
    requires
        data.len() <= CHANNEL_CAPACITY,
    ensures
        art_dmx_packet(port_address, data).len() == 18 + padded(data).len(),
        art_dmx_packet(port_address, data).subrange(0, 8) == art_net_id(),
        art_dmx_packet(port_address, data)[14] + 256 * art_dmx_packet(port_address, data)[15]
            == port_address,
        256 * art_dmx_packet(port_address, data)[16] + art_dmx_packet(port_address, data)[17]
            == padded(data).len(),
        art_dmx_packet(port_address, data).subrange(18, 18 + data.len() as int) == data,
{
    let packet = art_dmx_packet(port_address, data);
    assert(packet.subrange(0, 8) =~= art_net_id());
    assert(packet.subrange(18, 18 + data.len() as int) =~= data);
}

/// Builds an ArtDmx message with `artnet_protocol` and serialises it:
/// `PortAddress::try_from` on the universe, `Output` with that port
/// address, the data and otherwise its defaults, then
/// `ArtCommand::write_to_buffer`.
///
/// Trusted: the conversion accepts exactly the universes up to 32767, the
/// serialiser accepts exactly 1 to 512 bytes of data, and the bytes that
/// come back are the packet that [`art_dmx_packet`] lays out.
#[verifier::external_body]
fn write_art_dmx(universe: u16, data: Vec<u8>) -> (r: Result<Vec<u8>, artnet_protocol::Error>)
    ensures
        match r {
            Ok(bytes) => encodable(universe, data@) && bytes@ == art_dmx_packet(universe, data@),
            Err(_) => !encodable(universe, data@),
        },
{
    let port_address = PortAddress::try_from(universe)?;
    let message = Output { port_address, data: data.into(), ..Output::default() };
    ArtCommand::Output(message).write_to_buffer()
}

/// Copies the first [`CHANNEL_CAPACITY`] values of a frame.
pub fn cap_payload(values: &Vec<u8>) -> (r: Vec<u8>)
    ensures
        r@ == capped(values@),
{
    let n: usize = if values.len() > CHANNEL_CAPACITY {
        CHANNEL_CAPACITY
    } else {
        values.len()
    };
    let mut out: Vec<u8> = Vec::with_capacity(n);
    let mut i: usize = 0;
    while i < n
        invariant
            i <= n,
            n <= values.len(),
            out@ == values@.take(i as int),
        decreases n - i,
    {
        out.push(values[i]);
        assert(values@.take(i + 1) =~= values@.take(i as int).push(values@[i as int]));
        i += 1;
    }
    assert(values@.take(values.len() as int) =~= values@);
    out
}

/// Encodes the channel values of one frame as an ArtDmx packet for the
/// given output universe. Values beyond the first [`CHANNEL_CAPACITY`] are
/// left out. A universe that Art-Net cannot address is refused, and so is
/// a frame without values.
pub fn encode_output(universe: u16, data: &Vec<u8>) -> (r: Result<Vec<u8>, EncodeError>)
    ensures
        match r {
            Ok(bytes) => {
                &&& universe <= MAX_PORT_ADDRESS
                &&& data.len() > 0
                &&& bytes@ == art_dmx_packet(universe, capped(data@))
            },
            Err(EncodeError::UniverseOutOfRange { universe: refused }) => {
                &&& universe > MAX_PORT_ADDRESS
                &&& refused == universe
            },
            Err(EncodeError::EmptyPayload) => universe <= MAX_PORT_ADDRESS && data.len() == 0,
        },
{
    let payload = cap_payload(data);
    match write_art_dmx(universe, payload) {
        Ok(bytes) => Ok(bytes),
        Err(_) => {
            if universe > MAX_PORT_ADDRESS {
                Err(EncodeError::UniverseOutOfRange { universe })
            } else {
                Err(EncodeError::EmptyPayload)
            }
        },
    }
}

} // verus!
