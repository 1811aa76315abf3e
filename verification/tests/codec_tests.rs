use prime_sieve::codec::count_primes_middleware;
use prime_sieve::codec::decode_request;
use prime_sieve::codec::encode_response;
use prime_sieve::codec::RequestError;
use prime_sieve::sieve::count_primes;

#[test]
fn round_trip_bound_thirty() {
    let body = b"{\"max\":30}".to_vec();
    let response = count_primes_middleware(&body).unwrap();
    assert_eq!(response, b"{\"count\":9}".to_vec());
}

#[test]
fn round_trip_through_serde() {
    let mut object = serde_json::Map::new();
    object.insert("max".to_string(), serde_json::Value::from(30u64));
    let body = serde_json::to_vec(&serde_json::Value::Object(object)).unwrap();
    let response = count_primes_middleware(&body).unwrap();
    let parsed: serde_json::Value = serde_json::from_slice(&response).unwrap();
    assert_eq!(parsed["count"], serde_json::Value::from(9u64));
    assert_eq!(parsed["count"].as_u64().unwrap() as usize, count_primes(30));
}

#[test]
fn whitespace_is_tolerated() {
    let body = b" { \"max\" : 10 } ".to_vec();
    let response = count_primes_middleware(&body).unwrap();
    assert_eq!(response, b"{\"count\":3}".to_vec());
}

#[test]
fn malformed_requests_are_rejected() {
    let cases: [&[u8]; 10] = [
        b"",
        b"{}",
        b"[1]",
        b"{\"max\":}",
        b"{\"max\":-1}",
        b"{\"max\":1e3}",
        b"{\"max\":007}",
        b"{\"max\":3} x",
        b"{\"Max\":3}",
        b"{\"max\":\"3\"}",
    ];
    for case in cases {
        let body = case.to_vec();
        assert_eq!(
            count_primes_middleware(&body),
            Err(RequestError::Malformed),
            "case {:?}",
            String::from_utf8_lossy(case)
        );
    }
}

#[test]
fn oversized_bound_is_rejected() {
    let body = b"{\"max\":99999999999999999999999999999}".to_vec();
    assert_eq!(count_primes_middleware(&body), Err(RequestError::BoundTooLarge));
}

#[test]
fn decode_reads_the_bound() {
    assert_eq!(decode_request(&b"{\"max\":42}".to_vec()), Ok(42));
    assert_eq!(decode_request(&b"{\"max\":0}".to_vec()), Ok(0));
    assert_eq!(decode_request(&b"\n{\t\"max\"\r: 12345 }".to_vec()), Ok(12345));
}

#[test]
fn encode_writes_canonical_json() {
    assert_eq!(encode_response(0), b"{\"count\":0}".to_vec());
    assert_eq!(encode_response(9), b"{\"count\":9}".to_vec());
    assert_eq!(encode_response(12345), b"{\"count\":12345}".to_vec());
    let parsed: serde_json::Value = serde_json::from_slice(&encode_response(678)).unwrap();
    assert_eq!(parsed["count"], serde_json::Value::from(678u64));
}

#[test]
fn extra_members_are_skipped() {
    let cases: [(&[u8], &[u8]); 5] = [
        (b"{\"max\":5,\"a\":1}", b"{\"count\":1}"),
        (b"{\"a\":1,\"max\":30}", b"{\"count\":9}"),
        (b"{\"a\":{\"b\":[1,\"x\",null],\"c\":-1.5e+3},\"max\":10}", b"{\"count\":3}"),
        (b"{\"s\":\"\\\"}\",\"max\":2}", b"{\"count\":0}"),
        (b"{ \"flag\" : true , \"max\" : 10 , \"tail\" : [ ] }", b"{\"count\":3}"),
    ];
    for (body, expected) in cases {
        assert_eq!(
            count_primes_middleware(&body.to_vec()),
            Ok(expected.to_vec()),
            "case {:?}",
            String::from_utf8_lossy(body)
        );
    }
}

#[test]
fn extra_members_match_serde_defaults() {
    let mut object = serde_json::Map::new();
    object.insert("max".to_string(), serde_json::Value::from(30u64));
    object.insert("other".to_string(), serde_json::Value::from(vec![1, 2, 3]));
    object.insert("note".to_string(), serde_json::Value::from("s\u{00e9}ance \"quoted\""));
    let body = serde_json::to_vec(&serde_json::Value::Object(object)).unwrap();
    let response = count_primes_middleware(&body).unwrap();
    let parsed: serde_json::Value = serde_json::from_slice(&response).unwrap();
    assert_eq!(parsed["count"].as_u64().unwrap() as usize, count_primes(30));
}

#[test]
fn duplicate_max_member_is_rejected() {
    let body = b"{\"max\":5,\"max\":6}".to_vec();
    assert_eq!(count_primes_middleware(&body), Err(RequestError::Malformed));
}

#[test]
fn string_escapes_in_skipped_members() {
    let body = b"{\"note\":\"\\u00e9\\n\",\"max\":4}".to_vec();
    assert_eq!(count_primes_middleware(&body), Ok(b"{\"count\":1}".to_vec()));
}

#[test]
fn nesting_is_bounded() {
    let mut deep = String::from("{\"a\":");
    for _ in 0..200 {
        deep.push('[');
    }
    for _ in 0..200 {
        deep.push(']');
    }
    deep.push_str(",\"max\":5}");
    assert_eq!(
        count_primes_middleware(&deep.into_bytes()),
        Err(RequestError::Malformed)
    );
    let shallow = b"{\"a\":[[[[[1]]]]],\"max\":5}".to_vec();
    assert_eq!(count_primes_middleware(&shallow), Ok(b"{\"count\":1}".to_vec()));
}

#[test]
fn bad_skipped_values_are_rejected() {
    let cases: [&[u8]; 5] = [
        b"{\"a\":01,\"max\":5}",
        b"{\"a\":tru,\"max\":5}",
        b"{\"a\":5.,\"max\":5}",
        b"{\"a\":\x01,\"max\":5}",
        b"{\"a\":\"\x01\",\"max\":5}",
    ];
    for case in cases {
        assert_eq!(
            count_primes_middleware(&case.to_vec()),
            Err(RequestError::Malformed),
            "case {:?}",
            String::from_utf8_lossy(case)
        );
    }
}
