//! The client-side command surface: the parsed command line, and the three
//! byte conventions its arguments travel under — eight big-endian bytes for
//! integers, raw UTF-8 for strings, and nothing for reads.

use vstd::prelude::*;
use vstd::string::{StrSliceExecFns, StringExecFns};
use vstd::utf8::encode_utf8;

use crate::codec::{
    spec_i64_to_be_bytes, spec_u64_from_be_bytes, i64_to_be_bytes, u64_from_be_bytes,
    PropagateDataRequest,
};

verus! {

/// The parsed command line: the node address to dial, and the command.
pub struct Cli {
    pub addr: Option<String>,
    pub command: Option<Commands>,
}

/// The commands a client can issue; `Interactive` starts the prompt loop
/// instead of sending one request.
pub enum Commands {
    Interactive,
    Cset { key: String, value: i64 },
    Cget { key: String },
    Cinc { key: String, amount: i64 },
    Cdec { key: String, amount: i64 },
    Sadd { key: String, tag: String },
    Srem { key: String, tag: String },
    Sget { key: String },
    Rset { key: String, register: String },
    Rget { key: String },
    Rapp { key: String, reg_append: String },
    Rlen { key: String },
}

/// The request a command encodes to, if it is one that sends a request:
/// the verb, the key, and the payload under the verb's byte convention.
pub open spec fn spec_request(c: Commands) -> Option<(Seq<char>, Seq<char>, Seq<u8>)> {
    match c {
        Commands::Interactive => None,
        Commands::Cset { key, value } => Some(("CSET"@, key@, spec_i64_to_be_bytes(value))),
        Commands::Cget { key } => Some(("CGET"@, key@, Seq::<u8>::empty())),
        Commands::Cinc { key, amount } => Some(("CINC"@, key@, spec_i64_to_be_bytes(amount))),
        Commands::Cdec { key, amount } => Some(("CDEC"@, key@, spec_i64_to_be_bytes(amount))),
        Commands::Sadd { key, tag } => Some(("SADD"@, key@, encode_utf8(tag@))),
        Commands::Srem { key, tag } => Some(("SREM"@, key@, encode_utf8(tag@))),
        Commands::Sget { key } => Some(("SGET"@, key@, Seq::<u8>::empty())),
        Commands::Rset { key, register } => Some(("RSET"@, key@, encode_utf8(register@))),
        Commands::Rget { key } => Some(("RGET"@, key@, Seq::<u8>::empty())),
        Commands::Rapp { key, reg_append } => Some(("RAPP"@, key@, encode_utf8(reg_append@))),
        Commands::Rlen { key } => Some(("RLEN"@, key@, Seq::<u8>::empty())),
    }
}

impl Commands {
    /// Encode this command as a request, under the byte conventions the
    /// service decodes: integers as eight big-endian bytes, strings as
    /// their UTF-8 bytes.
    pub fn to_request(&self) -> (r: Option<PropagateDataRequest>)
        ensures
            match r {
                Some(req) => spec_request(*self) == Some(
                    (req.valuetype@, req.key@, req.value@),
                ),
                None => spec_request(*self) is None,
            },
    {
        match self {
            Commands::Interactive => None,
            Commands::Cset { key, value } => Some(
                PropagateDataRequest {
                    valuetype: String::from_str("CSET"),
                    key: key.clone(),
                    value: i64_to_be_bytes(*value),
                },
            ),
            Commands::Cget { key } => Some(
                PropagateDataRequest {
                    valuetype: String::from_str("CGET"),
                    key: key.clone(),
                    value: Vec::new(),
                },
            ),
            Commands::Cinc { key, amount } => Some(
                PropagateDataRequest {
                    valuetype: String::from_str("CINC"),
                    key: key.clone(),
                    value: i64_to_be_bytes(*amount),
                },
            ),
            Commands::Cdec { key, amount } => Some(
                PropagateDataRequest {
                    valuetype: String::from_str("CDEC"),
                    key: key.clone(),
                    value: i64_to_be_bytes(*amount),
                },
            ),
            Commands::Sadd { key, tag } => Some(
                PropagateDataRequest {
                    valuetype: String::from_str("SADD"),
                    key: key.clone(),
                    value: tag.as_str().as_bytes_vec(),
                },
            ),
            Commands::Srem { key, tag } => Some(
                PropagateDataRequest {
                    valuetype: String::from_str("SREM"),
                    key: key.clone(),
                    value: tag.as_str().as_bytes_vec(),
                },
            ),
            Commands::Sget { key } => Some(
                PropagateDataRequest {
                    valuetype: String::from_str("SGET"),
                    key: key.clone(),
                    value: Vec::new(),
                },
            ),
            Commands::Rset { key, register } => Some(
                PropagateDataRequest {
                    valuetype: String::from_str("RSET"),
                    key: key.clone(),
                    value: register.as_str().as_bytes_vec(),
                },
            ),
            Commands::Rget { key } => Some(
                PropagateDataRequest {
                    valuetype: String::from_str("RGET"),
                    key: key.clone(),
                    value: Vec::new(),
                },
            ),
            Commands::Rapp { key, reg_append } => Some(
                PropagateDataRequest {
                    valuetype: String::from_str("RAPP"),
                    key: key.clone(),
                    value: reg_append.as_str().as_bytes_vec(),
                },
            ),
            Commands::Rlen { key } => Some(
                PropagateDataRequest {
                    valuetype: String::from_str("RLEN"),
                    key: key.clone(),
                    value: Vec::new(),
                },
            ),
        }
    }
}

/// Decode a numeric reply: eight big-endian bytes read as a signed 64-bit
/// integer, or zero when the length is wrong.
pub fn decode_numeric_reply(raw: &Vec<u8>) -> (r: i64)
    ensures
        raw@.len() == 8 ==> r == spec_u64_from_be_bytes(raw@) as i64,
        raw@.len() != 8 ==> r == 0,
{
    if raw.len() == 8 {
        u64_from_be_bytes(raw) as i64
    } else {
        0
    }
}

} // verus!
