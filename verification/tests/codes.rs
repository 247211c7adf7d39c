use dns_resolver::types::query_type::QueryType;
use dns_resolver::types::result_code::ResultCode;

#[test]
fn query_type_numbers() {
    assert_eq!(QueryType::from_num(1), QueryType::A);
    assert_eq!(QueryType::from_num(2), QueryType::NS);
    assert_eq!(QueryType::from_num(5), QueryType::CNAME);
    assert_eq!(QueryType::from_num(15), QueryType::MX);
    assert_eq!(QueryType::from_num(28), QueryType::AAAA);
    assert_eq!(QueryType::from_num(16), QueryType::UNKNOWN(16));
    assert_eq!(QueryType::A.to_num(), 1);
    assert_eq!(QueryType::AAAA.to_num(), 28);
    assert_eq!(QueryType::UNKNOWN(99).to_num(), 99);
}

#[test]
fn query_type_number_roundtrip() {
    for n in [0u16, 1, 2, 3, 5, 15, 28, 255, 65535] {
        assert_eq!(QueryType::from_num(n).to_num(), n);
    }
    // an UNKNOWN carrying a known number comes back as the known type
    assert_eq!(QueryType::from_num(QueryType::UNKNOWN(1).to_num()), QueryType::A);
}

#[test]
fn result_code_numbers() {
    assert_eq!(ResultCode::from_num(0), ResultCode::NOERR);
    assert_eq!(ResultCode::from_num(1), ResultCode::FORMERR);
    assert_eq!(ResultCode::from_num(2), ResultCode::SERVFAIL);
    assert_eq!(ResultCode::from_num(3), ResultCode::NXDOMAIN);
    assert_eq!(ResultCode::from_num(4), ResultCode::NOTIMP);
    assert_eq!(ResultCode::from_num(5), ResultCode::REFUSED);
    assert_eq!(ResultCode::from_num(9), ResultCode::NOERR);
    for r in [
        ResultCode::NOERR,
        ResultCode::FORMERR,
        ResultCode::SERVFAIL,
        ResultCode::NXDOMAIN,
        ResultCode::NOTIMP,
        ResultCode::REFUSED,
    ] {
        assert_eq!(ResultCode::from_num(r.to_num()), r);
    }
}
