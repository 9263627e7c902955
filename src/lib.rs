//! Live inventory of RFID tag detections: the merge rule for repeated
//! detections, the registry that lists and selects tags, and the scan loop's
//! per-cycle decisions.
pub mod app;
pub mod rfid;
pub mod scan;
