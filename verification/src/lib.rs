//! An in-memory phone directory together with a handful of small,
//! fully verified utility functions on numbers, strings and maps.

pub mod counting;
pub mod numeric;
pub mod phone_book;
pub mod selection;
pub mod string_map;
pub mod text;

pub use counting::freq;
pub use string_map::hash_to_array;
pub use string_map::zip_hash;
pub use numeric::fib;
pub use numeric::is_palindrome;
pub use selection::nthmax;
pub use phone_book::PhoneBook;
pub use phone_book::PhoneEntry;
pub use string_map::StringMap;
