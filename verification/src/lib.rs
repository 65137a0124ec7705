pub mod automaton;
pub mod laws;
mod lemmas;
pub mod model;

pub use automaton::empty;
pub use automaton::star;
pub use automaton::times;
pub use automaton::plus;
pub use automaton::unit;
pub use automaton::NFA;
pub use model::Symbol;
