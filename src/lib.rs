pub mod password;
pub mod rng;
pub mod symbols;

pub use password::generate;
pub use password::generate_password;
pub use password::shuffle;
pub use password::GenerationResult;
pub use rng::get_random_value;
pub use rng::Prng;
pub use symbols::get_symbol_by_offset;
