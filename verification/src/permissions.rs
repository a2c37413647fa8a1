//! The admin rule and the Discord mention syntax.
use vstd::prelude::*;

use crate::error::SchedulerError;
use crate::text::{parse_u64, parse_u64_spec};

verus! {

/// Refuses a non-admin.
pub fn require_admin_sync(is_admin: bool) -> (res: Result<(), SchedulerError>)
    ensures
        is_admin ==> res is Ok,
        !is_admin ==> res == Err::<(), SchedulerError>(SchedulerError::Forbidden),
{
    if is_admin {
        Ok(())
    } else {
        Err(SchedulerError::Forbidden)
    }
}

/// The mention of a user: `<@id>`.
pub fn mention_user(user_id: &str) -> (res: String)
    ensures
        res@ == "<@"@ + user_id@ + ">"@,
{
    let mut s = String::from_str("<@");
    s.append(user_id);
    s.append(">");
    s
}

/// A channel id read from its decimal text. Discord ids are never 0, and a
/// channel id cannot be made from 0, so that text is left out.
pub fn channel_id_from_str(value: &str) -> (res: Option<u64>)
    requires
        parse_u64_spec(value@) != Some(0int),
    ensures
        match res {
            Some(id) => parse_u64_spec(value@) == Some(id as int),
            None => parse_u64_spec(value@) is None,
        },
{
    parse_u64(value)
}

} // verus!
