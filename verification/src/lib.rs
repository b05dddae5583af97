//! A Bloom filter for storage engines: a probabilistic set-membership
//! structure that cheaply answers "might this key exist?" before paying for
//! an actual lookup, together with the seeded byte hash it probes with and a
//! checksum-protected binary encoding for persistence.

pub mod bloom;
pub mod hash;
