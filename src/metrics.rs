pub mod damerau_levenshtein;
pub mod jaro;
pub mod levenshtein;
pub mod sorensen_dice;
pub mod utils;
