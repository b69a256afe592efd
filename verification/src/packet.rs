//! Construction of the Wake-on-LAN magic packet.
//!
//! The magic packet is a fixed 102-byte payload: a synchronization prefix of
//! six `0xFF` bytes followed by the target MAC's six octets repeated sixteen
//! times.  Its content is fully determined by the MAC address.
use vstd::prelude::*;
use crate::mac::MacAddress;

verus! {

/// `mac` repeated `times` times, one copy after another.
pub open spec fn repeat_mac(mac: Seq<u8>, times: nat) -> Seq<u8>
    decreases times,
{
    if times == 0 {
        Seq::empty()
    } else {
        repeat_mac(mac, (times - 1) as nat) + mac
    }
}

/// The bytes of the magic packet for `mac`: six `0xFF` bytes, then `mac`
/// sixteen times.
pub open spec fn magic_bytes(mac: Seq<u8>) -> Seq<u8> {
    Seq::new(6, |i: int| 0xffu8) + repeat_mac(mac, 16)
}

/// An assembled magic packet.
pub struct MagicPacket {
    bytes: Vec<u8>,
}

impl View for MagicPacket {
    type V = Seq<u8>;

    closed spec fn view(&self) -> Seq<u8> {
        self.bytes@
    }
}

impl MagicPacket {
    /// The payload, ready to be put on the wire.
    pub fn as_bytes(&self) -> (b: &Vec<u8>)
        ensures
            b@ == self@,
    {
        &self.bytes
    }
}

proof fn lemma_repeat_mac_len(mac: Seq<u8>, times: nat)
    ensures
        repeat_mac(mac, times).len() == times * mac.len(),
    decreases times,
{
    if times == 0 {
        assert(times * mac.len() == 0) by (nonlinear_arith)
            requires times == 0;
    } else {
        lemma_repeat_mac_len(mac, (times - 1) as nat);
        assert(repeat_mac(mac, times).len() == ((times - 1) as nat) * mac.len() + mac.len());
        assert(times * mac.len() == ((times - 1) as nat) * mac.len() + mac.len()) by (nonlinear_arith)
            requires times >= 1;
    }
}

proof fn lemma_repeat_mac_index(mac: Seq<u8>, times: nat, r: int, j: int)
    requires
        0 <= r < times,
        0 <= j < mac.len(),
    ensures
        repeat_mac(mac, times).len() == times * mac.len(),
        repeat_mac(mac, times)[r * mac.len() + j] == mac[j],
    decreases times,
{
    lemma_repeat_mac_len(mac, times);
    lemma_repeat_mac_len(mac, (times - 1) as nat);
    if r == times - 1 {
        assert(r * mac.len() + j - (times - 1) * mac.len() == j) by (nonlinear_arith)
            requires r == times - 1;
    } else {
        lemma_repeat_mac_index(mac, (times - 1) as nat, r, j);
        assert(0 <= r * mac.len() + j < (times - 1) * mac.len()) by (nonlinear_arith)
            requires 0 <= r < times - 1 && 0 <= j < mac.len();
    }
}

/// The wire layout of the magic packet, stated by offset: the packet is
/// exactly 102 bytes, bytes `[0..6)` are all `0xFF`, and for every
/// `r` in `[0,16)` bytes `[6 + 6r .. 6 + 6r + 6)` are the MAC's six octets
/// in order.
pub proof fn lemma_magic_packet_layout(mac: Seq<u8>)
    requires
        mac.len() == 6,
    ensures
        magic_bytes(mac).len() == 102,
        forall|i: int| 0 <= i < 6 ==> magic_bytes(mac)[i] == 0xffu8,
        forall|r: int, j: int|
            0 <= r < 16 && 0 <= j < 6 ==> #[trigger] magic_bytes(mac)[6 + 6 * r + j] == mac[j],
{
    lemma_repeat_mac_len(mac, 16);
    assert forall|r: int, j: int|
        0 <= r < 16 && 0 <= j < 6 implies #[trigger] magic_bytes(mac)[6 + 6 * r + j] == mac[j] by {
        lemma_repeat_mac_index(mac, 16, r, j);
        assert(r * mac.len() + j == 6 * r + j);
    }
}

/// Two packets built for the same MAC address are byte-identical: the
/// packet's bytes are a function of the octets alone.
pub proof fn lemma_build_deterministic(mac: Seq<u8>, p1: Seq<u8>, p2: Seq<u8>)
    requires
        p1 == magic_bytes(mac),
        p2 == magic_bytes(mac),
    ensures
        p1 == p2,
{
}

/// Assembles magic packets.
pub struct MagicPacketBuilder {
}

impl MagicPacketBuilder {
    /// The magic packet for `mac`: cannot fail, and its bytes are fully
    /// determined by the MAC's octets.
    pub fn build(mac: &MacAddress) -> (p: MagicPacket)
        ensures
            p@ == magic_bytes(mac@),
            p@.len() == 102,
    {
        let octets = mac.octets();
        let mut bytes: Vec<u8> = Vec::new();
        let mut i: usize = 0;
        while i < 6
            invariant
                i <= 6,
                bytes@ =~= Seq::new(i as nat, |k: int| 0xffu8),
            decreases 6 - i,
        {
            bytes.push(0xff);
            i = i + 1;
        }
        assert(bytes@ =~= Seq::new(6, |k: int| 0xffu8));
        let mut r: usize = 0;
        while r < 16
            invariant
                r <= 16,
                octets@ == mac@,
                octets@.len() == 6,
                bytes@ =~= Seq::new(6, |k: int| 0xffu8) + repeat_mac(mac@, r as nat),
            decreases 16 - r,
        {
            let mut j: usize = 0;
            let ghost before = bytes@;
            while j < 6
                invariant
                    j <= 6,
                    octets@ == mac@,
                    octets@.len() == 6,
                    bytes@ =~= before + mac@.subrange(0, j as int),
                decreases 6 - j,
            {
                bytes.push(octets[j]);
                assert(bytes@ =~= before + mac@.subrange(0, j + 1 as int));
                j = j + 1;
            }
            proof {
                lemma_repeat_mac_len(mac@, r as nat);
                assert(mac@.subrange(0, 6) =~= mac@);
                assert(bytes@ =~= Seq::new(6, |k: int| 0xffu8) + repeat_mac(
                    mac@,
                    (r + 1) as nat,
                ));
            }
            r = r + 1;
        }
        proof {
            lemma_repeat_mac_len(mac@, 16);
        }
        MagicPacket { bytes }
    }
}

} // verus!
