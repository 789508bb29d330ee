use erigon_db_reader::http::filter_of_parsed;
use erigon_db_reader::http::ExecJobRequest;
use erigon_db_reader::http::RequestError;
use erigon_db_reader::types::AppCfg;

fn request(contract: Option<&str>) -> ExecJobRequest {
    ExecJobRequest {
        job_id: "test_1".to_string(),
        block_number_start: 10_000,
        block_number_end: 3_000_000,
        contract: contract.map(|c| c.to_string()),
    }
}

#[test]
fn request_without_contract_has_no_filter() {
    assert_eq!(request(None).contract_address(), Ok(None));
}

#[test]
fn request_contract_is_read_as_hex() {
    let expected = [
        0x00, 0x11, 0x22, 0x33, 0x44, 0x55, 0x66, 0x77, 0x88, 0x99, 0xaa, 0xbb, 0xcc, 0xdd, 0xee, 0xff, 0x01, 0x23, 0x45,
        0x67,
    ];
    assert_eq!(request(Some("0x00112233445566778899aabbccddeeff01234567")).contract_address(), Ok(Some(expected)));
    assert_eq!(request(Some("00112233445566778899AABBCCDDEEFF01234567")).contract_address(), Ok(Some(expected)));
}

#[test]
fn request_with_bad_contract_is_an_error() {
    for text in ["", "0x", "0x1234", "zz112233445566778899aabbccddeeff01234567", "0x00112233445566778899aabbccddeeff0123456789"] {
        assert_eq!(request(Some(text)).contract_address(), Err(RequestError::BadContract));
    }
}

#[test]
fn filter_of_parsed_passes_an_address_on() {
    assert_eq!(filter_of_parsed(Some([3; 20])), Ok(Some([3; 20])));
    assert_eq!(filter_of_parsed(None), Err(RequestError::BadContract));
}

#[test]
fn app_cfg_holds_the_settings() {
    let cfg = AppCfg {
        http_port: 8080,
        http_address: "127.0.0.1".to_string(),
        db_path: "/data/chain".to_string(),
        result_path: "/data/out".to_string(),
    };
    assert_eq!(cfg.http_port, 8080);
    assert_eq!(cfg.http_address, "127.0.0.1");
    assert_eq!(cfg.db_path, "/data/chain");
    assert_eq!(cfg.result_path, "/data/out");
}
