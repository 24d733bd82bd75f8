pub mod ast;
pub mod dpll;
pub mod dimacs;
