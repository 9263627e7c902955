use vstd::prelude::*;

verus! {

/// Settings that the presentation hands to the scan loop.
#[derive(Clone, Copy, PartialEq, Eq, Structural)]
pub struct ScanSettings {
    pub detailed_scan: bool,
}

impl ScanSettings {
    /// Detail reads are on unless switched off.
    pub fn default() -> (r: ScanSettings)
        ensures
            r.detailed_scan,
    {
        ScanSettings { detailed_scan: true }
    }
}

/// Decoded contents of a tag's TID bank, as plain values.
#[derive(Clone, Copy, PartialEq, Eq, Structural)]
pub struct Tid {
    /// The tag has an extended TID (an XTID header follows).
    pub xtid: bool,
    pub security: bool,
    pub file: bool,
    pub mdid: u16,
    pub tmid: u16,
}

/// Decoded XTID header, as plain values.
#[derive(Clone, Copy, PartialEq, Eq, Structural)]
pub struct XtidHeader {
    pub extended_header: bool,
    pub user_memory_permalock: bool,
    pub blockwrite_blockerase: bool,
    pub optional_command_support: bool,
    /// Size of the serial number in bits.
    pub serial_size: u16,
}

/// Bit `k` of byte `b`, counting from the most significant (k = 0).
pub open spec fn bit(b: u8, k: int) -> bool {
    (b as int / pow2_of(7 - k)) % 2 == 1
}

pub open spec fn pow2_of(e: int) -> int
    decreases e,
{
    if e <= 0 { 1 } else { 2 * pow2_of(e - 1) }
}

/// The bytes hold a TID: at least four, the first being the class identifier 0xE2.
pub open spec fn tid_decodable(b: Seq<u8>) -> bool {
    b.len() >= 4 && b[0] == 0xE2
}

/// The TID that the first four bytes encode, read from the most significant bit:
/// class (8 bits), XTID, security and file flags, mask designer (9 bits), model (12 bits).
pub open spec fn tid_of_bytes(b: Seq<u8>) -> Tid {
    Tid {
        xtid: bit(b[1], 0),
        security: bit(b[1], 1),
        file: bit(b[1], 2),
        mdid: ((b[1] as int % 32) * 16 + b[2] as int / 16) as u16,
        tmid: ((b[2] as int % 16) * 256 + b[3] as int) as u16,
    }
}

/// The bytes hold an XTID header: at least two.
pub open spec fn xtid_decodable(b: Seq<u8>) -> bool {
    b.len() >= 2
}

/// The XTID header that the first two bytes encode, read from the most
/// significant bit: extension flag, 9 reserved bits, three segment flags and a
/// 3-bit serial size code (0: none, else 48 + 16 * (code - 1) bits).
pub open spec fn xtid_of_bytes(b: Seq<u8>) -> XtidHeader {
    XtidHeader {
        extended_header: bit(b[0], 0),
        user_memory_permalock: bit(b[1], 2),
        blockwrite_blockerase: bit(b[1], 3),
        optional_command_support: bit(b[1], 4),
        serial_size: (if b[1] as int % 8 == 0 { 0 } else { 48 + 16 * (b[1] as int % 8 - 1) }) as u16,
    }
}

/// Relies on gs1::epc::tid::decode_tid: it fails unless the first byte is
/// 0xE2 and 32 bits are there, and reads the fields most significant bit first.
#[verifier::external_body]
pub(crate) fn decode_tid(data: &Vec<u8>) -> (r: Option<Tid>)
    ensures
        r == (if tid_decodable(data@) { Some(tid_of_bytes(data@)) } else { None }),
{
    match gs1::epc::tid::decode_tid(data) {
        Ok(t) => Some(Tid { xtid: t.xtid, security: t.security, file: t.file, mdid: t.mdid, tmid: t.tmid }),
        Err(_) => None,
    }
}

/// Relies on gs1::epc::tid::decode_xtid_header: it fails unless 16 bits are
/// there, and reads the fields most significant bit first.
#[verifier::external_body]
pub(crate) fn decode_xtid_header(data: &Vec<u8>) -> (r: Option<XtidHeader>)
    ensures
        r == (if xtid_decodable(data@) { Some(xtid_of_bytes(data@)) } else { None }),
{
    match gs1::epc::tid::decode_xtid_header(data) {
        Ok(h) => Some(XtidHeader {
            extended_header: h.extended_header,
            user_memory_permalock: h.user_memory_permalock,
            blockwrite_blockerase: h.blockwrite_blockerase,
            optional_command_support: h.optional_command_support,
            serial_size: h.serial_size,
        }),
        Err(_) => None,
    }
}

/// One detection of a tag, or the record that repeated detections were folded into.
/// `last_seen` is a monotonic timestamp in milliseconds.
pub struct ScanResult {
    pub epc: Vec<u8>,
    pub tid: Option<Tid>,
    pub xtid_header: Option<XtidHeader>,
    pub serial: Option<Vec<u8>>,
    pub rssi: Option<i8>,
    pub antenna: Option<u8>,
    pub last_seen: u64,
}

/// The value of a `ScanResult`, with its byte vectors seen as sequences.
pub struct ScanRecord {
    pub epc: Seq<u8>,
    pub tid: Option<Tid>,
    pub xtid_header: Option<XtidHeader>,
    pub serial: Option<Seq<u8>>,
    pub rssi: Option<i8>,
    pub antenna: Option<u8>,
    pub last_seen: u64,
}

/// `incoming` if it is present, else `existing`.
pub open spec fn keep_or_replace<T>(existing: Option<T>, incoming: Option<T>) -> Option<T> {
    match incoming {
        Some(v) => Some(v),
        None => existing,
    }
}

impl View for ScanResult {
    type V = ScanRecord;

    open spec fn view(&self) -> ScanRecord {
        ScanRecord {
            epc: self.epc@,
            tid: self.tid,
            xtid_header: self.xtid_header,
            serial: match self.serial {
                Some(v) => Some(v@),
                None => None,
            },
            rssi: self.rssi,
            antenna: self.antenna,
            last_seen: self.last_seen,
        }
    }
}

/// The record that results from folding a later detection `incoming` into `existing`.
pub open spec fn merge(existing: ScanRecord, incoming: ScanRecord) -> ScanRecord {
    ScanRecord {
        epc: existing.epc,
        tid: keep_or_replace(existing.tid, incoming.tid),
        xtid_header: keep_or_replace(existing.xtid_header, incoming.xtid_header),
        serial: keep_or_replace(existing.serial, incoming.serial),
        rssi: keep_or_replace(existing.rssi, incoming.rssi),
        antenna: incoming.antenna,
        last_seen: incoming.last_seen,
    }
}

pub fn copy_bytes(v: &Vec<u8>) -> (r: Vec<u8>)
    ensures
        r@ == v@,
{
    let mut r: Vec<u8> = Vec::with_capacity(v.len());
    let mut i: usize = 0;
    while i < v.len()
        invariant
            i <= v.len(),
            r@ == v@.subrange(0, i as int),
        decreases v.len() - i,
    {
        r.push(v[i]);
        i = i + 1;
        assert(r@ =~= v@.subrange(0, i as int));
    }
    assert(r@ =~= v@);
    r
}

impl ScanResult {
    /// A fresh detection of `epc` at time `now`, with nothing else known.
    pub fn from_epc(epc: Vec<u8>, now: u64) -> (r: ScanResult)
        ensures
            r.epc@ == epc@,
            r.tid.is_none(),
            r.xtid_header.is_none(),
            r.serial.is_none(),
            r.rssi.is_none(),
            r.antenna.is_none(),
            r.last_seen == now,
    {
        ScanResult {
            epc,
            tid: None,
            xtid_header: None,
            serial: None,
            rssi: None,
            antenna: None,
            last_seen: now,
        }
    }

    /// A copy holding the same values.
    pub fn duplicate(&self) -> (r: ScanResult)
        ensures
            r@ == self@,
    {
        let serial = match &self.serial {
            Some(s) => Some(copy_bytes(s)),
            None => None,
        };
        ScanResult {
            epc: copy_bytes(&self.epc),
            tid: self.tid,
            xtid_header: self.xtid_header,
            serial,
            rssi: self.rssi,
            antenna: self.antenna,
            last_seen: self.last_seen,
        }
    }

    /// Folds a later detection of the same tag into this record: the optional
    /// descriptive fields keep their value unless `other` supplies one; antenna
    /// and time of detection are always taken from `other`.
    pub fn update(&mut self, other: ScanResult)
        requires
            old(self).epc@ == other.epc@,
        ensures
            final(self)@ == merge(old(self)@, other@),
    {
        if let Some(tid) = other.tid {
            self.tid = Some(tid);
        }
        if let Some(xtid) = other.xtid_header {
            self.xtid_header = Some(xtid);
        }
        if let Some(serial) = other.serial {
            self.serial = Some(serial);
        }
        if let Some(rssi) = other.rssi {
            self.rssi = Some(rssi);
        }
        self.antenna = other.antenna;
        self.last_seen = other.last_seen;
    }
}

/// Folding a record into one with the same values changes nothing.
pub proof fn lemma_merge_idempotent(r: ScanRecord)
    ensures
        merge(r, r) == r,
{
}

/// Of two detections `e1` then `e2` of one tag, the folded record has the TID
/// of `e2` when it carries one and that of `e1` otherwise, and always the
/// antenna and time of `e2`.
pub proof fn lemma_merge_field_rule(e1: ScanRecord, e2: ScanRecord)
    requires
        e1.epc == e2.epc,
    ensures
        merge(e1, e2).tid == (if e2.tid.is_some() { e2.tid } else { e1.tid }),
        merge(e1, e2).antenna == e2.antenna,
        merge(e1, e2).last_seen == e2.last_seen,
        merge(e1, e2).epc == e2.epc,
{
}

} // verus!
