use vstd::prelude::*;
use vstd::string::*;

verus! {

/// The class of a refusal.
#[derive(Clone, Copy, Debug, PartialEq, Eq, Structural)]
pub enum ErrorKind {
    /// The input is malformed.
    Validation,
    /// What the request refers to does not exist.
    NotFound,
    /// The request is well formed but not allowed.
    Policy,
    /// The sender does not hold the amount.
    InsufficientFunds,
}

/// Why an operation was refused. A refused operation leaves its store as it was.
#[derive(Clone, Copy, Debug, PartialEq, Eq, Structural)]
pub enum Error {
    /// A post with blank content and no image.
    EmptyPost,
    /// A comment with blank text.
    EmptyComment,
    /// A transfer of nothing.
    ZeroAmount,
    /// No post has the given id.
    PostNotFound,
    /// The caller has no profile.
    ProfileNotFound,
    /// The caller is the post's author.
    OwnPost,
    /// The caller has liked the post before.
    AlreadyLiked,
    /// The transfer exceeds the sender's balance.
    InsufficientFunds,
}

impl Error {
    pub open spec fn spec_kind(&self) -> ErrorKind {
        match *self {
            Error::EmptyPost | Error::EmptyComment | Error::ZeroAmount => ErrorKind::Validation,
            Error::PostNotFound | Error::ProfileNotFound => ErrorKind::NotFound,
            Error::OwnPost | Error::AlreadyLiked => ErrorKind::Policy,
            Error::InsufficientFunds => ErrorKind::InsufficientFunds,
        }
    }

    /// The class of this refusal.
    pub fn kind(&self) -> (r: ErrorKind)
        ensures
            r == self.spec_kind(),
    {
        match *self {
            Error::EmptyPost => ErrorKind::Validation,
            Error::EmptyComment => ErrorKind::Validation,
            Error::ZeroAmount => ErrorKind::Validation,
            Error::PostNotFound => ErrorKind::NotFound,
            Error::ProfileNotFound => ErrorKind::NotFound,
            Error::OwnPost => ErrorKind::Policy,
            Error::AlreadyLiked => ErrorKind::Policy,
            Error::InsufficientFunds => ErrorKind::InsufficientFunds,
        }
    }

    pub open spec fn spec_message(&self) -> Seq<char> {
        match *self {
            Error::EmptyPost => "either content or image_key required"@,
            Error::EmptyComment => "empty comment"@,
            Error::ZeroAmount => "amount must be > 0"@,
            Error::PostNotFound => "post not found"@,
            Error::ProfileNotFound => "profile not found"@,
            Error::OwnPost => "cannot like your own post"@,
            Error::AlreadyLiked => "already liked"@,
            Error::InsufficientFunds => "insufficient balance"@,
        }
    }

    /// The sentence shown to the client.
    pub fn message(&self) -> (r: String)
        ensures
            r@ == self.spec_message(),
    {
        match *self {
            Error::EmptyPost => String::from_str("either content or image_key required"),
            Error::EmptyComment => String::from_str("empty comment"),
            Error::ZeroAmount => String::from_str("amount must be > 0"),
            Error::PostNotFound => String::from_str("post not found"),
            Error::ProfileNotFound => String::from_str("profile not found"),
            Error::OwnPost => String::from_str("cannot like your own post"),
            Error::AlreadyLiked => String::from_str("already liked"),
            Error::InsufficientFunds => String::from_str("insufficient balance"),
        }
    }
}

} // verus!
