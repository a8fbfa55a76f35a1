use domain_keys::base62::Base62;
use domain_keys::keys::{DomainKeyError, RouteKey, MAX_64, MIN_64, ROUTE_KEY_SIZE};
use std::collections::HashSet;

#[test]
fn keys_parse_timestamp() {
    let now = RouteKey::now() as u64 / 1000_u64;
    let key = RouteKey::create();

    if let Ok(ts) = RouteKey::parse_timestamp(&key) {
        assert!(ts >= now);
    } else {
        panic!("not a valid timestamp");
    }

    assert!(true);
}

#[test]
fn parse_timestamp_error() {
    let key = "sxxskw".to_string();

    if let Ok(ts) = RouteKey::parse_timestamp(&key) {
        panic!("this key should fail: {} -> {}", &key, ts);
    } else {
        assert!(true);
    }
}

#[test]
fn random_number_in_range() {
    for _ in 0..10 {
        assert!(RouteKey::gen_random() >= MIN_64);
        assert!(RouteKey::gen_random() <= MAX_64);
    }
}

#[test]
fn parse_route_25() {
    let total_routes = 25_u8;

    // create fake keys between 00 and zz
    let keys: Vec<String> = (0..3843_u64)
        .into_iter()
        .map(|n| Base62::encode(n))
        .map(|s| format!("{:0>2}", s))
        .collect();

    let mut current = 0_u8;

    for key in keys {
        if let Ok(route) = RouteKey::parse_route(&key, total_routes) {
            assert!(route < total_routes);
            assert_eq!(route, current);
            current = (current + 1) % total_routes;
        } else {
            panic!("could not get route for key: {:?}", key);
        }
    }
}

#[test]
fn parse_route_10() {
    let total_routes = 10_u8;

    // create fake keys between 00 and zz
    let keys: Vec<String> = (0..3843_u64)
        .into_iter()
        .map(|n| Base62::encode(n))
        .map(|s| format!("{:0>2}", s))
        .collect();

    let mut current = 0_u8;

    for key in keys {
        if let Ok(route) = RouteKey::parse_route(&key, total_routes) {
            assert!(route < total_routes);
            assert_eq!(route, current);
            current = (current + 1) % total_routes;
        } else {
            panic!("could not get route for key: {:?}", key);
        }
    }
}

#[test]
fn parse_route_from_key() {
    let key = RouteKey::create();

    let test_route = |total_routes| {
        if let Ok(route) = RouteKey::parse_route(&key, total_routes) {
            // special case when there is only a single route
            if total_routes < 2 {
                assert_eq!(route, 0);
            } else {
                assert!(route < total_routes);
            }
        };
    };

    [1u8, 10u8, 24u8, 120u8].into_iter().for_each(test_route);
}

#[test]
fn encode_padding_size() {
    // test max, min and halfway point
    [MAX_64, MIN_64, MAX_64 / 2]
        .iter()
        .map(|x| RouteKey::encode_with_pad(*x))
        .for_each(|s| assert_eq!(s.len(), 7));

    // test the formats for min and max
    assert_eq!(RouteKey::encode_with_pad(MIN_64), "0010000");
    assert_eq!(RouteKey::encode_with_pad(MAX_64), "zzzzzzz");
}

#[test]
fn create() {
    let key = RouteKey::create();

    assert_eq!(key.len(), ROUTE_KEY_SIZE);
}

#[test]
fn keys_unique_test() {
    let max_tests: usize = 1_000;
    let mut table = HashSet::with_capacity(max_tests);

    for _ in 0..max_tests {
        let key = RouteKey::create();
        assert_eq!(key.len(), ROUTE_KEY_SIZE);
        assert_eq!(table.insert(key), true);
    }

    assert_eq!(table.len(), max_tests);
}

#[test]
fn route_key_unique_test() {
    let max_tests: usize = 10_000;
    let mut table = HashSet::with_capacity(max_tests);

    for _ in 0..max_tests {
        let key = RouteKey::create();
        assert_eq!(key.len(), ROUTE_KEY_SIZE);
        assert_eq!(table.insert(key), true);
    }

    assert_eq!(table.len(), max_tests);
}

#[test]
fn parse_route() {
    // known Key: YM6I7clU96YvDTCr, TimeStamp: 1664899323738819
    let key = "YM6I7clU96YvDTCr".to_string();
    let total_routes = 25;

    if let Ok(route) = RouteKey::parse_route(&key, total_routes) {
        assert_eq!(route, 5);
    } else {
        panic!("parse error for route, key: {}", key);
    }
}

#[test]
fn route_key_parse_timestamp() {
    let key = "YM6I7clU96YvDTCr".to_string();
    let ref_ts = 1664899323738819_u64;

    if let Ok(ts) = RouteKey::parse_timestamp(&key) {
        assert_eq!(ts, ref_ts);
    }
}

#[test]
fn compose_known_key() {
    let random = Base62::decode("YM6ITCr").unwrap();
    let key = RouteKey::compose(1664899323738819, random);
    assert_eq!(key, "YM6I7clU96YvDTCr");
    assert_eq!(RouteKey::parse_timestamp(&key).unwrap(), 1664899323738819);
}

#[test]
fn compose_pads_short_fields() {
    let key = RouteKey::compose(1000, MIN_64);
    assert_eq!(key, "00100000000G8000");
    assert_eq!(RouteKey::parse_timestamp(&key).unwrap(), 1000);

    let key = RouteKey::compose(0, 0);
    assert_eq!(key, "0000000000000000");
    assert_eq!(RouteKey::parse_timestamp(&key).unwrap(), 0);
}

#[test]
fn compose_keeps_nine_timestamp_digits() {
    // 62^9 and above wrap round to the nine low-order digits
    let limit = 13_537_086_546_263_552_u64;
    let key = RouteKey::compose(limit + 5, MAX_64);
    assert_eq!(key, "zzzz000000005zzz");
    assert_eq!(RouteKey::parse_timestamp(&key).unwrap(), 5);
    assert_eq!(RouteKey::compose(limit - 1, MAX_64), "zzzzzzzzzzzzzzzz");
}

#[test]
fn created_key_is_base62() {
    let key = RouteKey::create();
    assert_eq!(key.chars().count(), 16);
    assert!(key.chars().all(|c| c.is_ascii_alphanumeric()));
    assert!(RouteKey::parse_route(&key, 128).is_ok());
}

#[test]
fn route_clamps_total_routes() {
    for n in 0..3844_u64 {
        let key = format!("{:0>2}", Base62::encode(n));
        let r128 = RouteKey::parse_route(&key, 128).unwrap();
        assert_eq!(RouteKey::parse_route(&key, 200).unwrap(), r128);
        assert_eq!(RouteKey::parse_route(&key, 255).unwrap(), r128);
        assert_eq!(RouteKey::parse_route(&key, 1).unwrap(), 0);
        assert_eq!(RouteKey::parse_route(&key, 0).unwrap(), 0);
        assert_eq!(r128 as u64, n % 128);
    }
}

#[test]
fn short_and_invalid_keys() {
    assert!(matches!(RouteKey::parse_route("", 1), Err(DomainKeyError::InvalidSize)));
    assert!(matches!(RouteKey::parse_route("z", 10), Err(DomainKeyError::InvalidSize)));
    assert!(matches!(
        RouteKey::parse_timestamp("sxxskw"),
        Err(DomainKeyError::InvalidSize)
    ));
    assert!(matches!(
        RouteKey::parse_timestamp("YM6I7clU96YvDTCrX"),
        Err(DomainKeyError::InvalidSize)
    ));
    match RouteKey::parse_route("~A", 10) {
        Err(DomainKeyError::InvalidBase62(k)) => assert_eq!(k, "~A"),
        other => panic!("unexpected: {:?}", other),
    }
    assert!(matches!(
        RouteKey::parse_timestamp("YM6I7cl~96YvDTCr"),
        Err(DomainKeyError::ParseError)
    ));
    // only the timestamp field is read
    assert_eq!(RouteKey::parse_timestamp("~~~~7clU96YvD~~~").unwrap(), 1664899323738819);
    // only the first two characters are read
    assert_eq!(RouteKey::parse_route("0A~~", 128).unwrap(), 10);
}

#[test]
fn route_example() {
    assert_eq!(RouteKey::parse_route("G8", 10).unwrap(), 0);
    assert_eq!(RouteKey::parse_route("G9", 10).unwrap(), 1);
    assert_eq!(RouteKey::parse_route("zz", 128).unwrap(), (3843 % 128) as u8);
}

#[test]
fn random_parts_vary() {
    let mut seen = HashSet::new();
    for _ in 0..100 {
        let r = RouteKey::gen_random();
        assert!((MIN_64..=MAX_64).contains(&r));
        seen.insert(r);
    }
    assert!(seen.len() > 90);
}

#[test]
fn clock_reads_after_2022() {
    // 2022-10-01 in nanoseconds
    assert!(RouteKey::now() > 1_664_650_548_820_248_432);
}
