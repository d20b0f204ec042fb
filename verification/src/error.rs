use vstd::prelude::*;

verus! {

/// The error kinds of the store and of the wire codec.
#[derive(Debug, Clone, Copy, PartialEq, Eq, Structural)]
pub enum DBError {
    NotFound,
    Expired,
    Internal,
    ParseError,
    InvalidArg,
}

/// The text a client sees for each error kind.
pub open spec fn err_text(e: DBError) -> Seq<char> {
    match e {
        DBError::NotFound => "Key not found"@,
        DBError::Expired => "Key has expired"@,
        DBError::Internal => "Internal error"@,
        DBError::ParseError => "Parse error"@,
        DBError::InvalidArg => "Invalid argument"@,
    }
}

impl DBError {
    /// The text a client sees for this error kind.
    pub fn message(&self) -> (r: String)
        ensures
            r@ == err_text(*self),
    {
        match self {
            DBError::NotFound => "Key not found".to_owned(),
            DBError::Expired => "Key has expired".to_owned(),
            DBError::Internal => "Internal error".to_owned(),
            DBError::ParseError => "Parse error".to_owned(),
            DBError::InvalidArg => "Invalid argument".to_owned(),
        }
    }
}

} // verus!
