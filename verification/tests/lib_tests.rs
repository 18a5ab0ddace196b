use pk_flight_log::Version;

#[test]
fn test_version_order() {
    assert!(Version::V1 < Version::V2);
}
