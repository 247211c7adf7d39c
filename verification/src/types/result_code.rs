use vstd::prelude::*;

verus! {

/// The response code of a DNS message (the RCODE field of the header).
#[derive(Copy, Clone, PartialEq, Eq, Hash, Debug, Structural)]
pub enum ResultCode {
    /// No error (0).
    NOERR,
    /// The server could not interpret the query (1).
    FORMERR,
    /// The server failed to process the query (2).
    SERVFAIL,
    /// The queried name does not exist (3).
    NXDOMAIN,
    /// The server does not support this kind of query (4).
    NOTIMP,
    /// The server refuses to answer (5).
    REFUSED,
}

/// The response code that the 4-bit field value `num` stands for; values
/// without a code of their own read as `NOERR`.
pub open spec fn result_code_of(num: u8) -> ResultCode {
    if num == 1 {
        ResultCode::FORMERR
    } else if num == 2 {
        ResultCode::SERVFAIL
    } else if num == 3 {
        ResultCode::NXDOMAIN
    } else if num == 4 {
        ResultCode::NOTIMP
    } else if num == 5 {
        ResultCode::REFUSED
    } else {
        ResultCode::NOERR
    }
}

/// The field value of the response code `r`.
pub open spec fn result_code_num(r: ResultCode) -> u8 {
    match r {
        ResultCode::NOERR => 0,
        ResultCode::FORMERR => 1,
        ResultCode::SERVFAIL => 2,
        ResultCode::NXDOMAIN => 3,
        ResultCode::NOTIMP => 4,
        ResultCode::REFUSED => 5,
    }
}

impl ResultCode {
    /// The response code that the field value `num` stands for.
    pub fn from_num(num: u8) -> (r: ResultCode)
        ensures
            r == result_code_of(num),
    {
        match num {
            1 => ResultCode::FORMERR,
            2 => ResultCode::SERVFAIL,
            3 => ResultCode::NXDOMAIN,
            4 => ResultCode::NOTIMP,
            5 => ResultCode::REFUSED,
            _ => ResultCode::NOERR,
        }
    }

    /// The field value of this response code.
    pub fn to_num(&self) -> (n: u8)
        ensures
            n == result_code_num(*self),
    {
        match *self {
            ResultCode::NOERR => 0,
            ResultCode::FORMERR => 1,
            ResultCode::SERVFAIL => 2,
            ResultCode::NXDOMAIN => 3,
            ResultCode::NOTIMP => 4,
            ResultCode::REFUSED => 5,
        }
    }
}

/// Every response code survives the trip through its field value.
pub proof fn lemma_result_code_roundtrip(r: ResultCode)
    ensures
        result_code_of(result_code_num(r)) == r,
        result_code_num(r) < 16,
{
}

/// Field values 0 to 5 survive the trip through `ResultCode`; every other
/// value reads as `NOERR`.
pub proof fn lemma_result_code_num_roundtrip(num: u8)
    ensures
        num <= 5 ==> result_code_num(result_code_of(num)) == num,
        num > 5 ==> result_code_of(num) == ResultCode::NOERR,
{
}

/// The response codes have their RFC 1035 field values: NOERR 0, FORMERR 1,
/// SERVFAIL 2, NXDOMAIN 3, NOTIMP 4 and REFUSED 5.
pub proof fn lemma_result_code_numbers()
    ensures
        result_code_num(ResultCode::NOERR) == 0,
        result_code_num(ResultCode::FORMERR) == 1,
        result_code_num(ResultCode::SERVFAIL) == 2,
        result_code_num(ResultCode::NXDOMAIN) == 3,
        result_code_num(ResultCode::NOTIMP) == 4,
        result_code_num(ResultCode::REFUSED) == 5,
{
}

} // verus!
