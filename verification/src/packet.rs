//! Minimal framed packet: a little-endian identifier and raw bytes.
use vstd::prelude::*;

verus! {

/// One framed packet.
#[derive(Debug)]
pub struct Packet {
    /// The frame identifier.
    pub id: u32,
    /// The carried bytes.
    pub data: Vec<u8>,
}

/// Little-endian bytes of a 32-bit identifier.
pub open spec fn spec_le32(x: u32) -> Seq<u8> {
    seq![
        (x & 0xff) as u8,
        ((x >> 8) & 0xff) as u8,
        ((x >> 16) & 0xff) as u8,
        ((x >> 24) & 0xff) as u8,
    ]
}

impl Packet {
    /// A packet around a copy of `data`.
    pub fn new(id: u32, data: &[u8]) -> (r: Packet)
        ensures
            r.id == id,
            r.data@ == data@,
    {
        let mut copied: Vec<u8> = Vec::new();
        let mut i: usize = 0;
        while i < data.len()
            invariant
                i <= data@.len(),
                copied@ == data@.subrange(0, i as int),
            decreases data@.len() - i,
        {
            copied.push(data[i]);
            proof {
                assert(copied@ =~= data@.subrange(0, i + 1));
            }
            i = i + 1;
        }
        proof {
            assert(copied@ =~= data@);
        }
        Packet { id, data: copied }
    }

    /// Frame the packet: four identifier bytes, little-endian, then the
    /// data.
    pub fn encode(&self) -> (r: Vec<u8>)
        ensures
            r@ == spec_le32(self.id) + self.data@,
    {
        let mut out: Vec<u8> = Vec::new();
        let x = self.id;
        proof {
            assert((x & 0xff) < 256 && ((x >> 8) & 0xff) < 256 && ((x >> 16) & 0xff) < 256 && ((x
                >> 24) & 0xff) < 256) by (bit_vector);
        }
        out.push((x & 0xff) as u8);
        out.push(((x >> 8) & 0xff) as u8);
        out.push(((x >> 16) & 0xff) as u8);
        out.push(((x >> 24) & 0xff) as u8);
        let mut i: usize = 0;
        while i < self.data.len()
            invariant
                out@ == spec_le32(self.id) + self.data@.subrange(0, i as int),
                i <= self.data@.len(),
            decreases self.data@.len() - i,
        {
            out.push(self.data[i]);
            proof {
                assert(out@ =~= spec_le32(self.id) + self.data@.subrange(0, i + 1));
            }
            i = i + 1;
        }
        proof {
            assert(out@ =~= spec_le32(self.id) + self.data@);
        }
        out
    }

    /// Unframe a packet; fewer than four bytes is no frame.
    pub fn decode(bytes: &[u8]) -> (r: Option<Packet>)
        ensures
            bytes@.len() < 4 ==> r is None,
            bytes@.len() >= 4 ==> (r matches Some(p) && bytes@ == spec_le32(p.id) + p.data@),
    {
        if bytes.len() < 4 {
            return None;
        }
        let b0 = bytes[0];
        let b1 = bytes[1];
        let b2 = bytes[2];
        let b3 = bytes[3];
        let id: u32 = (b0 as u32) | ((b1 as u32) << 8u32) | ((b2 as u32) << 16u32) | ((b3
            as u32) << 24u32);
        let mut data: Vec<u8> = Vec::new();
        let mut i: usize = 4;
        while i < bytes.len()
            invariant
                4 <= i <= bytes@.len(),
                data@ == bytes@.subrange(4, i as int),
            decreases bytes@.len() - i,
        {
            data.push(bytes[i]);
            proof {
                assert(data@ =~= bytes@.subrange(4, i + 1));
            }
            i = i + 1;
        }
        proof {
            assert(data@ =~= bytes@.subrange(4, bytes@.len() as int));
            let x = id;
            assert(x == ((b0 as u32) | ((b1 as u32) << 8u32) | ((b2 as u32) << 16u32) | ((b3
                as u32) << 24u32)) ==> b0 == (x & 0xff) as u8 && b1 == ((x >> 8) & 0xff) as u8 && b2
                == ((x >> 16) & 0xff) as u8 && b3 == ((x >> 24) & 0xff) as u8) by (bit_vector);
            assert(bytes@ =~= spec_le32(id) + data@);
        }
        Some(Packet { id, data })
    }
}

/// Law: unframing a framed packet yields the identifier and data back.
pub proof fn lemma_packet_round_trip(id: u32, data: Seq<u8>)
    ensures
        ({
            let framed = spec_le32(id) + data;
            framed.len() >= 4 && framed.subrange(4, framed.len() as int) =~= data && ({
                let b0 = framed[0];
                let b1 = framed[1];
                let b2 = framed[2];
                let b3 = framed[3];
                ((b0 as u32) | ((b1 as u32) << 8u32) | ((b2 as u32) << 16u32) | ((b3
                    as u32) << 24u32)) == id
            })
        }),
{
    let framed = spec_le32(id) + data;
    assert(framed.subrange(4, framed.len() as int) =~= data);
    let x = id;
    assert(((((x & 0xff) as u8) as u32) | ((((x >> 8) & 0xff) as u8 as u32) << 8u32) | ((((x
        >> 16) & 0xff) as u8 as u32) << 16u32) | ((((x >> 24) & 0xff) as u8 as u32) << 24u32))
        == x) by (bit_vector);
}

} // verus!
