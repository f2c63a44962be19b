use buscaluso_bench::BenchSessionId;
use buscaluso_bench::default_out_db;
use buscaluso_bench::sha256_hex;

#[test]
fn test_sha256_hex_known_vectors() {
    assert_eq!(
        sha256_hex(&Vec::new()),
        "e3b0c44298fc1c149afbf4c8996fb92427ae41e4649b934ca495991b7852b855"
    );
    assert_eq!(
        sha256_hex(&b"abc".to_vec()),
        "ba7816bf8f01cfea414140de5dae2223b00361a396177a9cb410ff61f20015ad"
    );
}

#[test]
fn test_default_out_db() {
    assert_eq!(default_out_db(), "bench.sqlite3");
}

#[test]
fn test_session_id_start_time() {
    let sid = BenchSessionId(1_700_000_000);
    assert_eq!(sid.start_time(), 1_700_000_000);
    assert!(BenchSessionId(2) > BenchSessionId(1));
}
