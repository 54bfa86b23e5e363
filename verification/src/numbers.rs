pub mod big_integer;
pub mod eratos;
pub mod gcd;
