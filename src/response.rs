use vstd::prelude::*;
use crate::text::{append, owned};

verus! {

/// The envelope in which a generated server answers: the data of a success,
/// or the status and message of a failure.
pub enum Response<T> {
    Success(SuccessResponse<T>),
    Failure(FailureResponse),
}

pub struct SuccessResponse<T> {
    pub data: T,
}

pub struct FailureResponse {
    pub message: String,
    pub status: isize,
}

impl<T> Response<T> {
    pub fn success(data: T) -> (r: Self)
        ensures
            r matches Response::Success(s) && s.data == data,
    {
        Response::Success(SuccessResponse { data })
    }

    pub fn failure(status: isize, message: &str) -> (r: Self)
        ensures
            r matches Response::Failure(f) && f.status == status && f.message@ == message@,
    {
        Response::Failure(FailureResponse { status, message: owned(message) })
    }
}

/// The path under which the generated server serves a route's path.
pub fn fen_path(path: &str) -> (r: String)
    ensures
        r@ == "/_fen_"@ + path@,
{
    let mut r = owned("/_fen_");
    append(&mut r, path);
    r
}

} // verus!
