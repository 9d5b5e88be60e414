pub mod resp;
pub mod writer;
pub mod roundtrip;
