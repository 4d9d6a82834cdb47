use vstd::prelude::*;
use crate::text::{concat_str, chars_of, append_range, string_from_chars};
use crate::strs::{decimal, decimal_chars};

verus! {

/// Why a knowledge source or a worker could not go on.
pub enum SeederError {
    /// The source has nothing more to give.
    Exhausted,
    /// The network or the remote service failed.
    Transport(String),
    /// The remote service asked to slow down.
    RateLimited { retry_after_secs: u64 },
    /// Anything else.
    Other(String),
}

/// The message describing an error.
pub open spec fn error_message(e: SeederError) -> Seq<char> {
    match e {
        SeederError::Exhausted => "source exhausted"@,
        SeederError::Transport(m) => "transport: "@ + m@,
        SeederError::RateLimited { retry_after_secs } => "rate limited; retry after "@ + decimal(
            retry_after_secs as nat,
        ) + "s"@,
        SeederError::Other(m) => "other: "@ + m@,
    }
}

impl SeederError {
    /// The message describing this error (see [`error_message`]).
    pub fn describe(&self) -> (s: String)
        ensures
            s@ == error_message(*self),
    {
        match self {
            SeederError::Exhausted => "source exhausted".to_owned(),
            SeederError::Transport(m) => concat_str("transport: ", m.as_str()),
            SeederError::RateLimited { retry_after_secs } => {
                let mut all = chars_of("rate limited; retry after ");
                let d = decimal_chars(*retry_after_secs);
                append_range(&mut all, &d, 0, d.len());
                let tail = chars_of("s");
                append_range(&mut all, &tail, 0, tail.len());
                proof {
                    assert(d@.subrange(0, d@.len() as int) =~= d@);
                    assert(tail@.subrange(0, tail@.len() as int) =~= tail@);
                }
                string_from_chars(all.as_slice())
            },
            SeederError::Other(m) => concat_str("other: ", m.as_str()),
        }
    }
}

} // verus!
