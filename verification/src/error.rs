//! The errors that the bot reports to the user.
use vstd::prelude::*;

verus! {

/// A refusal, with the text shown to the user by `message`.
#[derive(Debug, PartialEq, Eq)]
pub enum SchedulerError {
    MissingGuild,
    InvalidInput(String),
    MissingScheduleChannel,
    Forbidden,
    NotFound,
    MissingOverlapBatch,
}

/// The text shown for each error.
pub open spec fn error_text(e: SchedulerError) -> Seq<char> {
    match e {
        SchedulerError::MissingGuild => "questo comando deve essere usato dentro un server Discord"@,
        SchedulerError::InvalidInput(detail) => "input non valido: "@ + detail@,
        SchedulerError::MissingScheduleChannel => "nessun canale sessioni configurato: usa prima /ss config channel"@,
        SchedulerError::Forbidden => "operazione non permessa"@,
        SchedulerError::NotFound => "risorsa non trovata"@,
        SchedulerError::MissingOverlapBatch => "nessuna tabella overlap valida: esegui prima /ss overlaps come admin"@,
    }
}

/// `res` is what `expected` describes: the same value, or an invalid-input
/// error with the expected text.
pub open spec fn outcome_is<T>(res: Result<T, SchedulerError>, expected: Result<T, Seq<char>>) -> bool {
    match (res, expected) {
        (Ok(v), Ok(w)) => v == w,
        (Err(SchedulerError::InvalidInput(m)), Err(w)) => m@ == w,
        _ => false,
    }
}

impl SchedulerError {
    /// The text shown to the user for this error.
    pub fn message(&self) -> (res: String)
        ensures
            res@ == error_text(*self),
    {
        match self {
            SchedulerError::MissingGuild => String::from_str(
                "questo comando deve essere usato dentro un server Discord",
            ),
            SchedulerError::InvalidInput(detail) => {
                let mut s = String::from_str("input non valido: ");
                s.append(detail.as_str());
                s
            },
            SchedulerError::MissingScheduleChannel => String::from_str(
                "nessun canale sessioni configurato: usa prima /ss config channel",
            ),
            SchedulerError::Forbidden => String::from_str("operazione non permessa"),
            SchedulerError::NotFound => String::from_str("risorsa non trovata"),
            SchedulerError::MissingOverlapBatch => String::from_str(
                "nessuna tabella overlap valida: esegui prima /ss overlaps come admin",
            ),
        }
    }
}

} // verus!
