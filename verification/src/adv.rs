//! The advertising payload: the device-configuration record and its GAP
//! byte layout.
//!
//! The payload is a run of length-prefixed structures: appearance, flags,
//! the complete 16-bit service UUID list, and the complete local name.
//! The configuration travels through the record store under its own
//! well-known key; here it is held as plain bytes and numbers.

use vstd::prelude::*;

use crate::layout::{le_bytes};

verus! {

/// GAP data type: flags.
pub const AD_TYPE_FLAGS: u8 = 0x01;

/// GAP data type: complete list of 16-bit service UUIDs.
pub const AD_TYPE_UUID16_COMPLETE: u8 = 0x03;

/// GAP data type: complete local name.
pub const AD_TYPE_COMPLETE_LOCAL_NAME: u8 = 0x09;

/// GAP data type: appearance.
pub const AD_TYPE_APPEARANCE: u8 = 0x19;

/// Flags value: LE-only, general discoverable.
pub const FLAGS_LE_ONLY_GENERAL_DISC: u8 = 0x06;

/// Appearance value for a HID keyboard, low byte.
pub const APPEARANCE_HID_KEYBOARD: u8 = 0xC1;

/// The HID service UUID.
pub const HID_SERVICE: u16 = 0x1812;

/// The battery service UUID.
pub const BATTERY_SERVICE: u16 = 0x180F;

/// The device-information service UUID.
pub const DEVICE_INFO_SERVICE: u16 = 0x180A;

/// Ghost image of the configuration.
pub ghost struct AdvDataV {
    pub flags: u8,
    pub uuids: Seq<u16>,
    pub name: Seq<u8>,
    pub appearance: u8,
}

/// The little-endian bytes of a UUID list.
pub open spec fn uuid_bytes(us: Seq<u16>) -> Seq<u8>
    decreases us.len(),
{
    if us.len() == 0 {
        Seq::empty()
    } else {
        le_bytes(us[0] as int, 2) + uuid_bytes(us.drop_first())
    }
}

/// The whole advertising payload: appearance, flags, UUID list, name.
pub open spec fn enc_adv(a: AdvDataV) -> Seq<u8> {
    seq![2u8, AD_TYPE_APPEARANCE, a.appearance] + seq![2u8, AD_TYPE_FLAGS, a.flags] + seq![
        (2 * a.uuids.len() + 1) as u8,
        AD_TYPE_UUID16_COMPLETE,
    ] + uuid_bytes(a.uuids) + seq![(a.name.len() + 1) as u8, AD_TYPE_COMPLETE_LOCAL_NAME] + a.name
}

/// The advertising configuration: flags, service UUIDs, the device name
/// as UTF-8 bytes, and the appearance byte.
pub struct AdvData {
    pub flags: u8,
    pub uuids: Vec<u16>,
    pub name: Vec<u8>,
    pub appearance: u8,
}

impl View for AdvData {
    type V = AdvDataV;

    open spec fn view(&self) -> AdvDataV {
        AdvDataV {
            flags: self.flags,
            uuids: self.uuids@,
            name: self.name@,
            appearance: self.appearance,
        }
    }
}

impl AdvData {
    /// Structure lengths fit their one-byte prefixes.
    pub open spec fn wf(&self) -> bool {
        &&& self@.uuids.len() <= 127
        &&& self@.name.len() <= 254
    }

    /// Builds the raw advertising payload.
    pub fn to_bytes(&self) -> (r: Vec<u8>)
        requires
            self.wf(),
        ensures
            r@ == enc_adv(self@),
    {
        let mut data: Vec<u8> = Vec::new();
        data.push(2);
        data.push(AD_TYPE_APPEARANCE);
        data.push(self.appearance);
        data.push(2);
        data.push(AD_TYPE_FLAGS);
        data.push(self.flags);
        data.push((self.uuids.len() as u8) * 2 + 1);
        data.push(AD_TYPE_UUID16_COMPLETE);
        let ghost head = data@;
        proof {
            assert(head =~= seq![2u8, AD_TYPE_APPEARANCE, self@.appearance] + seq![
                2u8,
                AD_TYPE_FLAGS,
                self@.flags,
            ] + seq![(2 * self@.uuids.len() + 1) as u8, AD_TYPE_UUID16_COMPLETE]);
        }
        let mut i: usize = 0;
        while i < self.uuids.len()
            invariant
                i <= self@.uuids.len(),
                data@ == head + uuid_bytes(self@.uuids.subrange(0, i as int)),
            decreases self@.uuids.len() - i,
        {
            let u = self.uuids[i];
            data.push((u % 256) as u8);
            data.push((u / 256) as u8);
            proof {
                lemma_uuid_bytes_snoc(self@.uuids.subrange(0, i as int), self@.uuids[i as int]);
                assert(le_bytes(u as int, 2) =~= seq![
                    (u as int % 256) as u8,
                    ((u as int / 256) % 256) as u8,
                ]) by {
                    assert(le_bytes(u as int / 256, 1) =~= seq![((u as int / 256) % 256) as u8]) by {
                        assert(le_bytes(u as int / 256 / 256, 0) == Seq::<u8>::empty());
                    }
                }
                assert((u as int / 256) % 256 == u as int / 256);
                assert(data@ =~= head + (uuid_bytes(self@.uuids.subrange(0, i as int)) + le_bytes(
                    u as int,
                    2,
                )));
                assert(self@.uuids.subrange(0, i as int).push(self@.uuids[i as int])
                    =~= self@.uuids.subrange(0, i + 1 as int));
            }
            i = i + 1;
        }
        proof {
            assert(self@.uuids.subrange(0, self@.uuids.len() as int) =~= self@.uuids);
        }
        data.push(self.name.len() as u8 + 1);
        data.push(AD_TYPE_COMPLETE_LOCAL_NAME);
        let mut j: usize = 0;
        let ghost head2 = data@;
        while j < self.name.len()
            invariant
                j <= self@.name.len(),
                data@ == head2 + self@.name.subrange(0, j as int),
            decreases self@.name.len() - j,
        {
            data.push(self.name[j]);
            proof {
                assert(data@ =~= head2 + self@.name.subrange(0, j + 1 as int));
            }
            j = j + 1;
        }
        proof {
            assert(self@.name.subrange(0, self@.name.len() as int) =~= self@.name);
            assert(data@ =~= enc_adv(self@));
        }
        data
    }
}

proof fn lemma_uuid_bytes_snoc(us: Seq<u16>, u: u16)
    ensures
        uuid_bytes(us.push(u)) == uuid_bytes(us) + le_bytes(u as int, 2),
    decreases us.len(),
{
    if us.len() == 0 {
        assert(us.push(u)[0] == u);
        assert(us.push(u).drop_first() =~= Seq::<u16>::empty());
        assert(uuid_bytes(Seq::<u16>::empty()) == Seq::<u8>::empty());
        assert(us =~= Seq::<u16>::empty());
        assert(le_bytes(u as int, 2) + Seq::<u8>::empty() =~= le_bytes(u as int, 2));
        assert(Seq::<u8>::empty() + le_bytes(u as int, 2) =~= le_bytes(u as int, 2));
    } else {
        assert(us.push(u)[0] == us[0]);
        assert(us.push(u).drop_first() =~= us.drop_first().push(u));
        lemma_uuid_bytes_snoc(us.drop_first(), u);
        assert(le_bytes(us[0] as int, 2) + (uuid_bytes(us.drop_first()) + le_bytes(u as int, 2))
            =~= (le_bytes(us[0] as int, 2) + uuid_bytes(us.drop_first())) + le_bytes(u as int, 2));
    }
}

impl Default for AdvData {
    /// The shipped configuration: LE-only general-discoverable keyboard
    /// named after the firmware, advertising the HID, device-information
    /// and battery services.
    fn default() -> (r: AdvData)
        ensures
            r.wf(),
            r@.flags == FLAGS_LE_ONLY_GENERAL_DISC,
            r@.appearance == APPEARANCE_HID_KEYBOARD,
            r@.uuids == seq![HID_SERVICE, DEVICE_INFO_SERVICE, BATTERY_SERVICE],
            r@.name == seq![0x48u8, 0x65u8, 0x6Cu8, 0x6Cu8, 0x6Fu8, 0x57u8, 0x6Fu8, 0x72u8, 0x6Cu8, 0x64u8],
    {
        let mut uuids: Vec<u16> = Vec::new();
        uuids.push(HID_SERVICE);
        uuids.push(DEVICE_INFO_SERVICE);
        uuids.push(BATTERY_SERVICE);
        let mut name: Vec<u8> = Vec::new();
        name.push(0x48);
        name.push(0x65);
        name.push(0x6C);
        name.push(0x6C);
        name.push(0x6F);
        name.push(0x57);
        name.push(0x6F);
        name.push(0x72);
        name.push(0x6C);
        name.push(0x64);
        let r = AdvData {
            flags: FLAGS_LE_ONLY_GENERAL_DISC,
            uuids,
            name,
            appearance: APPEARANCE_HID_KEYBOARD,
        };
        proof {
            assert(r@.uuids =~= seq![HID_SERVICE, DEVICE_INFO_SERVICE, BATTERY_SERVICE]);
            assert(r@.name =~= seq![
                0x48u8,
                0x65u8,
                0x6Cu8,
                0x6Cu8,
                0x6Fu8,
                0x57u8,
                0x6Fu8,
                0x72u8,
                0x6Cu8,
                0x64u8,
            ]);
        }
        r
    }
}

/// The well-known key the configuration record is stored under.
pub open spec fn adv_data_key() -> Seq<u8> {
    seq![0x41u8, 0x64u8, 0x76u8, 0x44u8, 0x61u8, 0x74u8, 0x61u8]
}

/// The key bytes, for callers of the store.
pub fn adv_data_key_bytes() -> (r: Vec<u8>)
    ensures
        r@ == adv_data_key(),
{
    let mut v: Vec<u8> = Vec::new();
    v.push(0x41);
    v.push(0x64);
    v.push(0x76);
    v.push(0x44);
    v.push(0x61);
    v.push(0x74);
    v.push(0x61);
    proof {
        assert(v@ =~= adv_data_key());
    }
    v
}

} // verus!
