//! A small verified library around a `Person` data model: construction and
//! simple queries on persons, a stateless integer calculator, an
//! order-preserving adult filter, and a JSON interchange codec for person
//! sequences with a proved encode/decode round trip.

pub mod adults;
pub mod calculator;
pub mod decimal;
pub mod json;
pub mod person;

pub use adults::filter_adults;
pub use calculator::Calculator;
pub use json::people_from_json;
pub use json::people_to_json;
pub use json::SerializationError;
pub use person::Person;
