//! Root finding for real functions of one variable, with verified control
//! flow. A real number is carried as the bit pattern of an IEEE-754 double;
//! the order, sign and tolerance decisions are made on those bits.
pub mod double;
pub mod root;
