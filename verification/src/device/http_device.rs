//! Values that are kept by a remote server.
use crate::error::Fault;
use crate::text::{decimal, push_decimal};
use vstd::prelude::*;
use vstd::string::*;

verus! {

/// Where values are kept: the server, what its keys start with, and what is sent along with
/// every request.
#[derive(Debug, Clone, PartialEq, Eq)]
pub struct HttpKV {
    pub url: String,
    pub key_prefix: String,
    pub headers: Vec<(String, String)>,
}

/// The name under which the server keeps the value of number `k`.
pub open spec fn internal_key(prefix: Seq<char>, k: u64) -> Seq<char> {
    "xhfs-"@ + prefix + "-"@ + decimal(k as nat)
}

impl HttpKV {
    /// The name under which the server keeps the value of number `k`.
    pub fn to_internal(&self, k: u64) -> (r: String)
        ensures
            r@ == internal_key(self.key_prefix@, k),
    {
        let mut out: String = "xhfs-".to_owned();
        out.append(self.key_prefix.as_str());
        out.append("-");
        push_decimal(&mut out, k);
        out
    }

    /// The address of the value of number `k`.
    pub fn key_url(&self, k: u64) -> (r: String)
        ensures
            r@ == self.url@ + "/xhfs/"@ + internal_key(self.key_prefix@, k),
    {
        let mut out: String = self.url.clone();
        out.append("/xhfs/");
        out.append(self.to_internal(k).as_str());
        out
    }
}

/// What the server's answer to a request to store says.
pub fn stored_reply(status: u16) -> (r: Result<(), Fault>)
    ensures
        r == if 200 <= status < 300 {
            Ok::<(), Fault>(())
        } else {
            Err(Fault::DeviceFailure { code: status as u64 })
        },
{
    if 200 <= status && status < 300 {
        Ok(())
    } else {
        Err(Fault::DeviceFailure { code: status as u64 })
    }
}

/// What the server's answer to a request for a value says: the value, that there is none, or
/// that the request failed.
pub fn fetched_reply(status: u16, body: Vec<u8>) -> (r: Result<Option<Vec<u8>>, Fault>)
    ensures
        status == 200 ==> r == Ok::<_, Fault>(Some(body)),
        status == 404 ==> r == Ok::<Option<Vec<u8>>, Fault>(None),
        status != 200 && status != 404 ==> r == Err::<Option<Vec<u8>>, Fault>(
            Fault::DeviceFailure { code: status as u64 },
        ),
{
    if status == 200 {
        Ok(Some(body))
    } else if status == 404 {
        Ok(None)
    } else {
        Err(Fault::DeviceFailure { code: status as u64 })
    }
}

} // verus!
