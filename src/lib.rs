//! Gröbner bases of polynomial ideals over the rationals: monomials under
//! lex, grlex and grevlex orderings, sparse polynomials, multivariate
//! division, and the Buchberger and signature-based engines.
use vstd::prelude::*;

pub mod division;
pub mod groebner;
pub mod ideal;
pub mod monomial;
pub mod order;
pub mod ordpol;
pub mod rational;
pub mod signature;
pub mod unipol;

pub use crate::groebner::{buchberger, buchberger_with, sugar, Entry};
pub use crate::monomial::Monomial;
pub use crate::order::{Grevlex, Grlex, Lex, MonomialOrder};
pub use crate::ordpol::Ordpol;
pub use crate::rational::Rational;
pub use crate::signature::{f5, signature_gb};
pub use crate::unipol::{Power, Unipol};

verus! {

} // verus!
