//! LoRaWAN activation-by-personalisation (ABP) session parameters.

use vstd::prelude::*;

verus! {

/// Session keys, device address and uplink frame counter of an ABP session.
#[derive(Debug, Clone, Copy)]
pub struct LoRaSession {
    /// Device address, least significant byte first as sent on air.
    pub dev_addr: [u8; 4],
    /// Network session key (message integrity code).
    pub nwk_skey: [u8; 16],
    /// Application session key (payload encryption).
    pub app_skey: [u8; 16],
    /// Uplink frame counter.
    pub fcnt_up: u32,
}

impl LoRaSession {
    /// A session with the given address and keys and the uplink counter at 0.
    pub fn new(dev_addr: [u8; 4], nwk_skey: [u8; 16], app_skey: [u8; 16]) -> (s: LoRaSession)
        ensures
            s.dev_addr == dev_addr,
            s.nwk_skey == nwk_skey,
            s.app_skey == app_skey,
            s.fcnt_up == 0,
    {
        LoRaSession { dev_addr, nwk_skey, app_skey, fcnt_up: 0 }
    }

    /// The well-known test session: all-zero keys, device address
    /// 0x01020304.
    pub fn test_abp() -> (s: LoRaSession)
        ensures
            s.dev_addr@ == seq![0x04u8, 0x03u8, 0x02u8, 0x01u8],
            s.nwk_skey@ == Seq::new(16, |i: int| 0u8),
            s.app_skey@ == Seq::new(16, |i: int| 0u8),
            s.fcnt_up == 0,
    {
        let s = LoRaSession::new([0x04u8, 0x03u8, 0x02u8, 0x01u8], [0u8; 16], [0u8; 16]);
        assert(s.dev_addr@ =~= seq![0x04u8, 0x03u8, 0x02u8, 0x01u8]);
        assert(s.nwk_skey@ =~= Seq::new(16, |i: int| 0u8));
        assert(s.app_skey@ =~= Seq::new(16, |i: int| 0u8));
        s
    }
}

} // verus!
