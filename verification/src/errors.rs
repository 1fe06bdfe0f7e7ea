//! The failure taxonomy of the store.
use vstd::prelude::*;

verus! {

/// Every failure the store reports.
///
/// `Corrupt` means both meta slots failed validation (magic, version or
/// checksum) or a persisted structure is unreadable: the database is
/// unusable. `Timeout` means the writer lock was not acquired within the
/// configured bound. `TxNotWritable` and `TxClosed` report misuse of a
/// transaction handle; they are always surfaced, never a silent no-op.
/// `DatabaseNotOpen` and `DatabaseAlreadyOpen` report lifecycle misuse.
/// `Io` is a failure of the backing file.
#[derive(Clone, Copy, Debug, PartialEq, Eq, Structural)]
pub enum Error {
    Corrupt,
    Timeout,
    TxNotWritable,
    TxClosed,
    DatabaseNotOpen,
    DatabaseAlreadyOpen,
    Io,
}

impl Error {
    /// A short human-readable name for the failure.
    pub fn as_str(&self) -> (s: &'static str)
        ensures
            s@ =~= match self {
                Error::Corrupt => "corrupt"@,
                Error::Timeout => "timeout"@,
                Error::TxNotWritable => "tx not writable"@,
                Error::TxClosed => "tx closed"@,
                Error::DatabaseNotOpen => "database not open"@,
                Error::DatabaseAlreadyOpen => "database already open"@,
                Error::Io => "io"@,
            },
    {
        proof {
            reveal_strlit("corrupt");
            reveal_strlit("timeout");
            reveal_strlit("tx not writable");
            reveal_strlit("tx closed");
            reveal_strlit("database not open");
            reveal_strlit("database already open");
            reveal_strlit("io");
        }
        match self {
            Error::Corrupt => "corrupt",
            Error::Timeout => "timeout",
            Error::TxNotWritable => "tx not writable",
            Error::TxClosed => "tx closed",
            Error::DatabaseNotOpen => "database not open",
            Error::DatabaseAlreadyOpen => "database already open",
            Error::Io => "io",
        }
    }
}

} // verus!
