//! Control messages that come with a received packet.
use vstd::prelude::*;

verus! {

/// Header of a control message.
#[derive(Debug, Clone, Copy, PartialEq, Eq, Structural)]
pub struct ControlHeader {
    /// Protocol that the message belongs to.
    pub level: i32,
    /// Type of the message within its protocol.
    pub kind: i32,
}

/// Finds the first control message of a protocol and type, such as the packet
/// information that tells the receiving interface.
pub fn find_control_message(headers: &[ControlHeader], wanted: ControlHeader) -> (res: Option<
    usize,
>)
    ensures
        match res {
            Some(n) => n < headers@.len() && headers@[n as int] == wanted && forall|i: int|
                0 <= i < n ==> headers@[i] != wanted,
            None => !headers@.contains(wanted),
        },
{
    let mut i: usize = 0;
    while i < headers.len()
        invariant
            i <= headers@.len(),
            forall|j: int| 0 <= j < i ==> headers@[j] != wanted,
        decreases headers@.len() - i,
    {
        if headers[i] == wanted {
            return Some(i);
        }
        i = i + 1;
    }
    None
}

} // verus!
