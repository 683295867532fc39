pub mod header;
pub mod message;
pub mod name;
pub mod question;
pub mod resource_record;

pub use crate::zero_copy::decode_message_ref;
pub use header::decode_flags;
pub use header::decode_header;
pub use message::decode_message;
pub use name::decode_name;
pub use question::decode_question;
pub use resource_record::decode_resource_record;
pub use resource_record::decode_resource_records;
