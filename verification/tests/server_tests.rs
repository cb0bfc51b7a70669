use lu_server::codec::{decode_fields, encode_grid};
use lu_server::config;
use lu_server::errors::ErrorKind;
use lu_server::generator;
use lu_server::lu::LuOp;
use lu_server::matrix::Matrix;
use lu_server::response::{error_response, respond, success_response};
use lu_server::select::{corpus_file_path, pick_index};

fn args(list: &[&str]) -> Vec<String> {
    list.iter().map(|s| s.to_string()).collect()
}

#[test]
fn server_args_are_a_path_and_a_port() {
    let c = config::parse_args(args(&["server", "/data/corpus", "8080"])).unwrap();
    assert_eq!(c.path, "/data/corpus");
    assert_eq!(c.port, 8080);
}

#[test]
fn server_args_accept_a_signed_port_numeral() {
    let c = config::parse_args(args(&["server", "p", "+80"])).unwrap();
    assert_eq!(c.port, 80);
}

#[test]
fn server_args_reject_a_wrong_count() {
    assert!(matches!(config::parse_args(args(&["server", "p"])), Err(ErrorKind::Config)));
    assert!(matches!(
        config::parse_args(args(&["server", "p", "80", "x"])),
        Err(ErrorKind::Config)
    ));
}

#[test]
fn server_args_reject_a_bad_port() {
    for bad in ["", "port", "65536", "-1", "8 0", "++1", "1.5"] {
        assert!(matches!(config::parse_args(args(&["server", "p", bad])), Err(ErrorKind::Config)));
    }
    assert!(config::parse_args(args(&["server", "p", "65535"])).is_ok());
}

#[test]
fn generator_args_are_path_count_and_size_range() {
    let c = generator::parse_args(args(&["gen", "/data", "12", "2", "5"])).unwrap();
    assert_eq!(c.path, "/data");
    assert_eq!(c.count, 12);
    assert_eq!(c.min_size, 2);
    assert_eq!(c.max_size, 5);
}

#[test]
fn generator_args_reject_bad_fields() {
    assert!(matches!(generator::parse_args(args(&["gen", "/data", "12", "2"])), Err(_)));
    assert!(matches!(generator::parse_args(args(&["gen", "/data", "x", "2", "5"])), Err(_)));
    assert!(matches!(generator::parse_args(args(&["gen", "/data", "12", "2", "70000"])), Err(_)));
}

#[test]
fn an_empty_corpus_cannot_be_picked_from() {
    assert_eq!(pick_index(0), Err(ErrorKind::Io));
}

#[test]
fn a_pick_is_always_in_range() {
    for _ in 0..32 {
        let i = pick_index(3).unwrap();
        assert!(i < 3);
    }
    assert_eq!(pick_index(1).unwrap(), 0);
}

#[test]
fn corpus_paths_are_indexed_dat_files() {
    let p = corpus_file_path(&b"/data/corpus".to_vec(), 12);
    assert_eq!(p, b"/data/corpus/12.dat".to_vec());
    let zero_path = corpus_file_path(&b"d".to_vec(), 0);
    assert_eq!(zero_path, b"d/0.dat".to_vec());
}

#[test]
fn a_success_response_frames_both_factors() {
    let r = success_response(&b"1, 0".to_vec(), &b"0, 1".to_vec());
    assert_eq!(r, b"HTTP/1.1 200 OK\r\n\r\nA=1, 0\r\n\r\nB=0, 1\r\n\r\n".to_vec());
}

#[test]
fn a_failed_request_gets_the_generic_error_response() {
    assert_eq!(error_response(), b"HTTP/1.1 500 Internal Server Error\r\n\r\n".to_vec());
    let r = respond(Err(ErrorKind::Io));
    assert_eq!(r, b"HTTP/1.1 500 Internal Server Error\r\n\r\n".to_vec());
}

fn parse_field(bytes: &[u8]) -> Option<u64> {
    std::str::from_utf8(bytes)
        .ok()
        .and_then(|s| s.parse::<f64>().ok())
        .map(|v| v.to_bits())
}

fn serve(text: &[u8]) -> Vec<u8> {
    let outcome = (|| {
        let fields = decode_fields(&text.to_vec())?;
        let cells: Vec<Vec<Option<u64>>> = fields
            .iter()
            .map(|row| row.iter().map(|f| parse_field(f)).collect())
            .collect();
        let m = Matrix::new(cells);
        let mut eng = m.lu();
        while let Some(op) = eng.pending() {
            let r = match op {
                LuOp::MulSub { x, y, z } => {
                    (f64::from_bits(x) - f64::from_bits(y) * f64::from_bits(z)).to_bits()
                }
                LuOp::Div { num, den } => (f64::from_bits(num) / f64::from_bits(den)).to_bits(),
            };
            eng.supply(r);
        }
        let (l, u) = eng.finish();
        let fmt = |m: &Matrix| -> Vec<Vec<Vec<u8>>> {
            (0..m.n())
                .map(|i| {
                    (0..m.n())
                        .map(|j| f64::from_bits(m.get(i, j)).to_string().into_bytes())
                        .collect()
                })
                .collect()
        };
        Ok((encode_grid(&fmt(&l)), encode_grid(&fmt(&u))))
    })();
    respond(outcome)
}

#[test]
fn serving_the_identity_returns_identity_factors() {
    let r = serve(b"1, 0\n0, 1");
    assert_eq!(r, b"HTTP/1.1 200 OK\r\n\r\nA=1, 0\n0, 1\r\n\r\nB=1, 0\n0, 1\r\n\r\n".to_vec());
    let body = &r[b"HTTP/1.1 200 OK\r\n\r\nA=".len()..];
    let l_text = &body[..body.iter().position(|&b| b == b'\r').unwrap()];
    let l = decode_fields(&l_text.to_vec()).unwrap();
    for (i, row) in l.iter().enumerate() {
        for (j, f) in row.iter().enumerate() {
            let v = f64::from_bits(parse_field(f).unwrap());
            assert_eq!(v, if i == j { 1.0 } else { 0.0 });
        }
    }
}

#[test]
fn serving_a_two_by_two_grid_returns_its_factors() {
    let r = serve(b"4, 3\n6, 3");
    assert_eq!(r, b"HTTP/1.1 200 OK\r\n\r\nA=1, 0\n1.5, 1\r\n\r\nB=4, 3\n0, -1.5\r\n\r\n".to_vec());
}

#[test]
fn a_non_numeric_field_decodes_as_zero_without_an_error() {
    let r = serve(b"abc, 0\n0, 1");
    assert!(r.starts_with(b"HTTP/1.1 200 OK"));
    let fields = decode_fields(&b"abc, 0\n0, 1".to_vec()).unwrap();
    assert_eq!(parse_field(&fields[0][0]), None);
    let cells: Vec<Vec<Option<u64>>> = fields
        .iter()
        .map(|row| row.iter().map(|f| parse_field(f)).collect())
        .collect();
    let m = Matrix::new(cells);
    assert_eq!(f64::from_bits(m.get(0, 0)), 0.0);
}
