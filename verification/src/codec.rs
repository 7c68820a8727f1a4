//! The inbound message decoder and the outbound reply encoder.
//!
//! An inbound message is a one-byte message type, a three-byte
//! transaction identifier, and a stream of type-length-value options.
//! The decoder walks that stream looking for the client-identifier
//! option. The encoder serializes the fixed-shape reply that carries
//! the client identifier and the delegated prefix.

use crate::addr::{address_octets, be_value, lemma_be_value_of_bytes, lemma_pow2_128};
use crate::hexfmt::{client_id_bytes, hex_decode, hex_encode, hex_of};
use crate::pool::Ipv6Prefix;
use vstd::arithmetic::div_mod::lemma_small_mod;
use vstd::arithmetic::power2::pow2;
use vstd::prelude::*;
use vstd::slice::slice_subrange;

verus! {

/// The result of scanning the option stream of `data` from byte
/// `offset` on: the payload of the first client-identifier option
/// (code 1), or nothing when the stream runs out or an option's
/// declared length would read past the end of the buffer.
pub open spec fn scan_options(data: Seq<u8>, offset: int) -> Option<Seq<u8>>
    recommends
        0 <= offset,
    decreases data.len() - offset,
{
    if offset + 4 > data.len() {
        None
    } else {
        let code = data[offset] * 256 + data[offset + 1];
        let olen = data[offset + 2] * 256 + data[offset + 3];
        if offset + 4 + olen > data.len() {
            None
        } else if code == 1 {
            Some(data.subrange(offset + 4, offset + 4 + olen))
        } else {
            scan_options(data, offset + 4 + olen)
        }
    }
}

/// What decoding a message yields: the client identifier rendered as
/// lowercase hexadecimal, or nothing for a buffer of exactly the bare
/// header's four bytes, an empty buffer, a message type other than 1,
/// or an option stream without a client-identifier option. Anomalies
/// never fail harder than this.
pub open spec fn parse_result(data: Seq<u8>) -> Option<Seq<char>> {
    if data.len() == 0 || data.len() == 4 || data[0] != 1 {
        None
    } else {
        match scan_options(data, 4) {
            Some(payload) => Some(hex_of(payload)),
            None => None,
        }
    }
}

/// Extracts the client identifier from an inbound message, as a
/// lowercase hexadecimal string. Malformed or truncated input yields
/// `None`, never an error.
pub fn parse_dhcp_message(data: &[u8]) -> (r: Option<String>)
    ensures
        match r {
            Some(s) => parse_result(data@) == Some(s@),
            None => parse_result(data@) is None,
        },
{
    if data.len() <= 4 {
        return None;
    }
    let message_type = data[0];
    if message_type != 1 {
        return None;
    }
    let mut offset: usize = 4;
    while offset <= data.len() - 4
        invariant
            4 <= offset <= data@.len(),
            data@.len() > 4,
            data@[0] == 1,
            scan_options(data@, offset as int) == scan_options(data@, 4),
        decreases data@.len() - offset,
    {
        let option_code = (data[offset] as u32) * 256 + (data[offset + 1] as u32);
        let option_length = (data[offset + 2] as usize) * 256 + (data[offset + 3] as usize);
        let payload_start = offset + 4;
        if option_length > data.len() - payload_start {
            return None;
        }
        if option_code == 1 {
            let payload = slice_subrange(data, payload_start, payload_start + option_length);
            proof {
                assert(scan_options(data@, offset as int) == Some(
                    data@.subrange(payload_start as int, payload_start as int + option_length),
                ));
            }
            return Some(hex_encode(payload));
        }
        offset = payload_start + option_length;
    }
    None
}

/// The serialized reply for a client identifier (already decoded to
/// bytes) and a delegated prefix: message type 7, a placeholder
/// transaction identifier, the client-identifier option, and the
/// prefix-delegation option with a placeholder IAID, the 16-octet base
/// address, the prefix length, and two reserved zero bytes.
pub open spec fn reply_bytes(cid: Seq<u8>, prefix: Ipv6Prefix) -> Seq<u8> {
    seq![
        7u8,
        0xaa,
        0xbb,
        0xcc,
        0x00,
        0x01,
        (cid.len() / 256) as u8,
        (cid.len() % 256) as u8,
    ] + cid + seq![0x00u8, 0x19, 0x00, 0x14, 0xaa, 0xbb, 0xcc, 0xdd] + address_octets(
        prefix.base_address.value,
    ) + seq![prefix.prefix_length, 0x00u8, 0x00u8]
}

/// Appends the bytes of `src` to `dst`.
fn push_bytes(dst: &mut Vec<u8>, src: &[u8])
    ensures
        final(dst)@ == old(dst)@ + src@,
{
    let mut k: usize = 0;
    while k < src.len()
        invariant
            k <= src@.len(),
            dst@ == old(dst)@ + src@.take(k as int),
        decreases src@.len() - k,
    {
        dst.push(src[k]);
        proof {
            assert(old(dst)@ + src@.take(k as int) + seq![src@[k as int]] =~= old(dst)@
                + src@.take(k + 1));
        }
        k = k + 1;
    }
    proof {
        assert(src@.take(src@.len() as int) =~= src@);
    }
}

/// Serializes the reply message for `client_id` and `prefix`. A client
/// identifier that is not well-formed hexadecimal degrades to an empty
/// option payload rather than failing.
pub fn construct_dhcp_reply(client_id: &str, prefix: &Ipv6Prefix) -> (r: Vec<u8>)
    requires
        client_id@.len() <= 131070,
    ensures
        r@ == reply_bytes(client_id_bytes(client_id@), *prefix),
{
    let cid: Vec<u8> = match hex_decode(client_id) {
        Some(v) => v,
        None => Vec::new(),
    };
    proof {
        assert(cid@ =~= client_id_bytes(client_id@));
    }
    let mut reply: Vec<u8> = Vec::new();
    reply.push(7);
    reply.push(0xaa);
    reply.push(0xbb);
    reply.push(0xcc);
    reply.push(0x00);
    reply.push(0x01);
    let id_len = cid.len();
    reply.push((id_len / 256) as u8);
    reply.push((id_len % 256) as u8);
    push_bytes(&mut reply, cid.as_slice());
    reply.push(0x00);
    reply.push(0x19);
    reply.push(0x00);
    reply.push(0x14);
    reply.push(0xaa);
    reply.push(0xbb);
    reply.push(0xcc);
    reply.push(0xdd);
    let octets = prefix.base_address.octets();
    push_bytes(&mut reply, octets.as_slice());
    reply.push(prefix.prefix_length);
    reply.push(0x00);
    reply.push(0x00);
    proof {
        assert(reply@ =~= reply_bytes(client_id_bytes(client_id@), *prefix));
    }
    reply
}

/// A reply carries the delegated prefix verbatim: reading the 16
/// address octets and the prefix-length byte back from their fixed
/// positions inside the prefix-delegation option reproduces the
/// encoded prefix exactly.
pub proof fn lemma_reply_roundtrip(cid: Seq<u8>, prefix: Ipv6Prefix)
    ensures
        ({
            let out = reply_bytes(cid, prefix);
            let addr_at = 16 + cid.len() as int;
            &&& out.len() == 35 + cid.len()
            &&& be_value(out.subrange(addr_at, addr_at + 16)) == prefix.base_address.value
            &&& out[addr_at + 16] == prefix.prefix_length
        }),
{
    let out = reply_bytes(cid, prefix);
    let addr_at = 16 + cid.len() as int;
    assert(out.subrange(addr_at, addr_at + 16) =~= address_octets(prefix.base_address.value));
    lemma_be_value_of_bytes(prefix.base_address.value as nat, 16);
    lemma_pow2_128();
    lemma_small_mod(prefix.base_address.value as nat, pow2(128));
}

} // verus!
