use vstd::prelude::*;

verus! {

/// The type of a DNS query or resource record (the TYPE field).
#[derive(Copy, Clone, PartialEq, Eq, Hash, Debug, Structural)]
pub enum QueryType {
    /// Any type that this resolver does not interpret, with its number.
    UNKNOWN(u16),
    /// An IPv4 host address (1).
    A,
    /// An authoritative name server (2).
    NS,
    /// The canonical name of an alias (5).
    CNAME,
    /// A mail exchange (15).
    MX,
    /// An IPv6 host address (28).
    AAAA,
}

/// The type that the number `num` stands for.
pub open spec fn query_type_of(num: u16) -> QueryType {
    if num == 1 {
        QueryType::A
    } else if num == 2 {
        QueryType::NS
    } else if num == 5 {
        QueryType::CNAME
    } else if num == 15 {
        QueryType::MX
    } else if num == 28 {
        QueryType::AAAA
    } else {
        QueryType::UNKNOWN(num)
    }
}

/// The number that stands for the type `q` on the wire.
pub open spec fn query_type_num(q: QueryType) -> u16 {
    match q {
        QueryType::UNKNOWN(x) => x,
        QueryType::A => 1,
        QueryType::NS => 2,
        QueryType::CNAME => 5,
        QueryType::MX => 15,
        QueryType::AAAA => 28,
    }
}

/// A type value as `from_num` produces it: an `UNKNOWN` never carries the
/// number of a type that has a variant of its own.
pub open spec fn is_canonical_query_type(q: QueryType) -> bool {
    match q {
        QueryType::UNKNOWN(x) => x != 1 && x != 2 && x != 5 && x != 15 && x != 28,
        _ => true,
    }
}

impl QueryType {
    /// The type that the wire number `num` stands for.
    pub fn from_num(num: u16) -> (q: QueryType)
        ensures
            q == query_type_of(num),
    {
        match num {
            1 => QueryType::A,
            2 => QueryType::NS,
            5 => QueryType::CNAME,
            15 => QueryType::MX,
            28 => QueryType::AAAA,
            _ => QueryType::UNKNOWN(num),
        }
    }

    /// The wire number of this type.
    pub fn to_num(&self) -> (n: u16)
        ensures
            n == query_type_num(*self),
    {
        match *self {
            QueryType::UNKNOWN(x) => x,
            QueryType::A => 1,
            QueryType::NS => 2,
            QueryType::CNAME => 5,
            QueryType::MX => 15,
            QueryType::AAAA => 28,
        }
    }
}

/// Every wire number survives the trip through `QueryType`: converting a
/// number to a type and back gives the number again.
pub proof fn lemma_query_type_num_roundtrip(num: u16)
    ensures
        query_type_num(query_type_of(num)) == num,
{
}

/// Every type value that `from_num` can produce survives the trip through its
/// number, and `from_num` produces only such values.
pub proof fn lemma_query_type_value_roundtrip(q: QueryType)
    ensures
        is_canonical_query_type(q) <==> query_type_of(query_type_num(q)) == q,
        is_canonical_query_type(query_type_of(query_type_num(q))),
{
}

/// The types have their registered numbers on the wire (A 1, NS 2, CNAME
/// 5, MX 15 and AAAA 28), an uninterpreted type keeps its own, and a number
/// is read as the type registered under it.
pub proof fn lemma_query_type_numbers(n: u16)
    ensures
        query_type_num(QueryType::A) == 1,
        query_type_num(QueryType::NS) == 2,
        query_type_num(QueryType::CNAME) == 5,
        query_type_num(QueryType::MX) == 15,
        query_type_num(QueryType::AAAA) == 28,
        query_type_num(QueryType::UNKNOWN(n)) == n,
        query_type_of(n) == (if n == 1 {
            QueryType::A
        } else if n == 2 {
            QueryType::NS
        } else if n == 5 {
            QueryType::CNAME
        } else if n == 15 {
            QueryType::MX
        } else if n == 28 {
            QueryType::AAAA
        } else {
            QueryType::UNKNOWN(n)
        }),
{
}

} // verus!
