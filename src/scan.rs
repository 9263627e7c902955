use vstd::prelude::*;
use crate::rfid::{
    decode_tid, decode_xtid_header, tid_decodable, tid_of_bytes, xtid_decodable, xtid_of_bytes,
    copy_bytes, ScanResult, ScanSettings, Tid, XtidHeader,
};

verus! {

/// Number of antennas on a multi-antenna reader.
pub const ANTENNA_COUNT: u8 = 4;

/// A read of `count` words from a tag's TID bank, starting at word `start`.
#[derive(Clone, Copy, PartialEq, Eq, Structural)]
pub struct TidRead {
    pub start: u8,
    pub count: u8,
}

/// The TID itself: two words at offset 0.
pub fn tid_read() -> (r: TidRead)
    ensures
        r.start == 0 && r.count == 2,
{
    TidRead { start: 0, count: 2 }
}

/// The XTID header: one word at offset 2.
pub fn xtid_read() -> (r: TidRead)
    ensures
        r.start == 2 && r.count == 1,
{
    TidRead { start: 2, count: 1 }
}

/// The serial number: three words at offset 2.
pub fn serial_read() -> (r: TidRead)
    ensures
        r.start == 2 && r.count == 3,
{
    TidRead { start: 2, count: 3 }
}

/// The settings for the next cycle: the latest polled message if one came,
/// else the current settings.
pub fn next_settings(current: ScanSettings, polled: Option<ScanSettings>) -> (r: ScanSettings)
    ensures
        r == (match polled {
            Some(s) => s,
            None => current,
        }),
{
    match polled {
        Some(s) => s,
        None => current,
    }
}

/// The antenna whose tags get a detail read in the next cycle.
pub fn next_antenna(antenna: u8) -> (r: u8)
    ensures
        r as int == (antenna as int + 1) % (ANTENNA_COUNT as int),
        r < ANTENNA_COUNT,
{
    ((antenna as u16 + 1) % (ANTENNA_COUNT as u16)) as u8
}

/// What the scan loop carries from one cycle to the next.
#[derive(Clone, Copy, PartialEq, Eq, Structural)]
pub struct ScanState {
    pub settings: ScanSettings,
    /// The antenna whose tags get the next detail read.
    pub detail_antenna: u8,
}

impl ScanState {
    /// Default settings, rotation at antenna 0.
    pub fn new() -> (r: ScanState)
        ensures
            r.settings.detailed_scan,
            r.detail_antenna == 0,
    {
        ScanState { settings: ScanSettings::default(), detail_antenna: 0 }
    }

    /// Starts a cycle with the settings message polled for it, if any; returns
    /// whether this cycle makes a detail pass.
    pub fn begin_cycle(&mut self, polled: Option<ScanSettings>) -> (detailed: bool)
        ensures
            final(self).settings == (match polled {
                Some(s) => s,
                None => old(self).settings,
            }),
            final(self).detail_antenna == old(self).detail_antenna,
            detailed == final(self).settings.detailed_scan,
    {
        self.settings = next_settings(self.settings, polled);
        self.settings.detailed_scan
    }

    /// Ends a cycle: after a detail pass the rotation moves to the next antenna.
    pub fn end_cycle(&mut self)
        ensures
            final(self).settings == old(self).settings,
            final(self).detail_antenna as int == (if old(self).settings.detailed_scan {
                (old(self).detail_antenna as int + 1) % (ANTENNA_COUNT as int)
            } else {
                old(self).detail_antenna as int
            }),
    {
        if self.settings.detailed_scan {
            self.detail_antenna = next_antenna(self.detail_antenna);
        }
    }
}

/// Fresh detections, at time `now`, of the tag IDs that a bulk inventory of a
/// single-antenna reader returned, in order.
pub fn bulk_detections(epcs: &Vec<Vec<u8>>, now: u64) -> (r: Vec<ScanResult>)
    ensures
        r@.len() == epcs@.len(),
        forall|i: int| 0 <= i < r@.len() ==> {
            let d = #[trigger] r@[i]@;
            &&& d.epc == epcs@[i]@
            &&& d.tid.is_none() && d.xtid_header.is_none() && d.serial.is_none()
            &&& d.rssi.is_none() && d.antenna.is_none()
            &&& d.last_seen == now
        },
{
    let mut r: Vec<ScanResult> = Vec::new();
    let mut i: usize = 0;
    while i < epcs.len()
        invariant
            i <= epcs@.len(),
            r@.len() == i,
            forall|k: int| 0 <= k < i ==> {
                let d = #[trigger] r@[k]@;
                &&& d.epc == epcs@[k]@
                &&& d.tid.is_none() && d.xtid_header.is_none() && d.serial.is_none()
                &&& d.rssi.is_none() && d.antenna.is_none()
                &&& d.last_seen == now
            },
        decreases epcs@.len() - i,
    {
        r.push(ScanResult::from_epc(copy_bytes(&epcs[i]), now));
        i = i + 1;
    }
    r
}

/// Whether the XTID header is to be read: only when a decoded TID announces it.
pub fn needs_xtid(tid: Option<Tid>) -> (r: bool)
    ensures
        r == (tid matches Some(t) && t.xtid),
{
    match tid {
        Some(t) => t.xtid,
        None => false,
    }
}

/// A detection from a sweep of a multi-antenna reader at time `now`.
pub fn antenna_detection(epc: Vec<u8>, rssi: i8, antenna: u8, now: u64) -> (r: ScanResult)
    ensures
        r@.epc == epc@,
        r@.tid.is_none() && r@.xtid_header.is_none() && r@.serial.is_none(),
        r@.rssi == Some(rssi),
        r@.antenna == Some(antenna),
        r@.last_seen == now,
{
    let mut r = ScanResult::from_epc(epc, now);
    r.rssi = Some(rssi);
    r.antenna = Some(antenna);
    r
}

/// The TID that a read's bytes decode to; absent where the read failed or
/// the bytes do not decode.
pub open spec fn decoded_tid(read: Option<Seq<u8>>) -> Option<Tid> {
    match read {
        Some(b) => if tid_decodable(b) { Some(tid_of_bytes(b)) } else { None },
        None => None,
    }
}

/// The XTID header that a read's bytes decode to, likewise.
pub open spec fn decoded_xtid(read: Option<Seq<u8>>) -> Option<XtidHeader> {
    match read {
        Some(b) => if xtid_decodable(b) { Some(xtid_of_bytes(b)) } else { None },
        None => None,
    }
}

pub open spec fn bytes_view(v: Option<Vec<u8>>) -> Option<Seq<u8>> {
    match v {
        Some(b) => Some(b@),
        None => None,
    }
}

/// Decodes the outcome of a TID read.
pub fn tid_from_read(read: &Option<Vec<u8>>) -> (r: Option<Tid>)
    ensures
        r == decoded_tid(bytes_view(*read)),
{
    match read {
        Some(b) => decode_tid(b),
        None => None,
    }
}

/// A detail read of the TID on one antenna of a multi-antenna reader: `data`
/// are the bytes read; the TID is absent when they do not decode.
pub fn antenna_detail(epc: Vec<u8>, data: &Vec<u8>, antenna: u8, now: u64) -> (r: ScanResult)
    ensures
        r@.epc == epc@,
        r@.tid == decoded_tid(Some(data@)),
        r@.xtid_header.is_none() && r@.serial.is_none() && r@.rssi.is_none(),
        r@.antenna == Some(antenna),
        r@.last_seen == now,
{
    let mut r = ScanResult::from_epc(epc, now);
    r.tid = decode_tid(data);
    r.antenna = Some(antenna);
    r
}

/// The detections of a sweep, or none when the sweep failed.
pub fn sweep_or_empty(sweep: Option<Vec<ScanResult>>) -> (r: Vec<ScanResult>)
    ensures
        match sweep {
            Some(v) => r@ == v@,
            None => r@.len() == 0,
        },
{
    match sweep {
        Some(v) => v,
        None => Vec::new(),
    }
}

/// The record that a detail pass of a single-antenna reader emits for `tag`,
/// from the outcomes of its memory reads (absent where a read failed): the TID
/// and XTID header as decoded, each absent where it does not decode, the XTID
/// header only where the TID announces it, and the serial bytes as read.
pub fn tag_details(
    tag: &ScanResult,
    tid_read: &Option<Vec<u8>>,
    xtid_read: &Option<Vec<u8>>,
    serial: Option<Vec<u8>>,
) -> (r: ScanResult)
    ensures
        r@.epc == tag@.epc,
        r@.tid == decoded_tid(bytes_view(*tid_read)),
        r@.xtid_header == (if decoded_tid(bytes_view(*tid_read)) matches Some(t) && t.xtid {
            decoded_xtid(bytes_view(*xtid_read))
        } else {
            None
        }),
        r@.serial == bytes_view(serial),
        r@.rssi == tag@.rssi,
        r@.antenna == tag@.antenna,
        r@.last_seen == tag@.last_seen,
{
    let mut r = tag.duplicate();
    let tid = tid_from_read(tid_read);
    r.tid = tid;
    r.xtid_header = if needs_xtid(tid) {
        match xtid_read {
            Some(b) => decode_xtid_header(b),
            None => None,
        }
    } else {
        None
    };
    r.serial = serial;
    r
}

} // verus!
