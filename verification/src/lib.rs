//! Small numerics library: Cayley tables of finite cyclic groups and a
//! deterministic trial-division primality test.

pub mod cayley;
pub mod primes;
