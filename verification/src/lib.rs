//! AMQP 0-9-1 value types and SASL credentials.
pub mod aliases;
pub mod buffer;
pub mod byte_array;
pub mod decimal;
pub mod error;
pub mod field_table;
pub mod field_value;
pub mod long_str;
pub mod security;
pub mod short_str;
pub mod text;

pub use byte_array::ByteArray;
pub use decimal::DecimalValue;
pub use error::Error;
pub use field_table::FieldTable;
pub use field_value::FieldArray;
pub use field_value::FieldValue;
pub use long_str::LongStr;
pub use security::SecurityCredentials;
pub use short_str::ShortStr;
