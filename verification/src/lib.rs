//! A recursive DNS resolver core: a bit-exact wire codec for DNS messages
//! over a fixed 512-byte frame, and a delegation-chasing resolution engine
//! expressed as a state machine. All logic is verified; UDP transport lives
//! outside the library.

pub mod buffer;
pub mod name;
pub mod header;
pub mod question;
pub mod record;
pub mod packet;
pub mod resolver;
pub mod server;

pub use buffer::BytePacketBuffer;
pub use buffer::DnsError;
pub use header::DnsHeader;
pub use header::ResultCode;
pub use packet::DnsPacket;
pub use question::DnsQuestion;
pub use question::QueryType;
pub use record::DnsRecord;
pub use resolver::ResolveAction;
pub use resolver::Resolver;
