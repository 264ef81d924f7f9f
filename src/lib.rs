//! Decoding of the OpenPGP ASCII-armor trailer, `<base64 data>=<base64 crc>`,
//! checked against the OpenPGP CRC-24 of the decoded bytes.

pub mod crc24;
pub mod armor;
