//! Modular arithmetic over fixed-width words: Montgomery and pseudo-Mersenne reduction, a field
//! element type generic over the reduction strategy, and constant-time inversion by safegcd.
//! Every function is verified against its contract; the laws relating them are in [laws].
pub mod arith;
pub mod fermat;
pub mod field;
pub mod laws;
pub mod montgomery;
pub mod pseudo_mersenne;
pub mod safegcd;
pub mod word;
