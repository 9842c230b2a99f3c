use ql_miner::cli::{parse_args, Command, WALLET_HEX_LEN};

fn args(v: &[&str]) -> Vec<String> {
    v.iter().map(|s| s.to_string()).collect()
}

fn wallet() -> String {
    "ab".repeat(WALLET_HEX_LEN / 2)
}

#[test]
fn plain_invocation() {
    let w = wallet();
    match parse_args(&args(&["node.example:8034", &w]), 6) {
        Command::Run(o) => {
            assert_eq!(o.workers, 6);
            assert!(!o.cuda_enabled);
            assert_eq!(o.cuda_devices, vec![0]);
            assert_eq!(o.node, "node.example:8034");
            assert_eq!(o.wallet_hex, w);
        }
        Command::Usage => panic!("a valid command line"),
    }
}

#[test]
fn options_anywhere() {
    let w = wallet();
    match parse_args(&args(&["--cuda", "node:1", "-j", "0", &w, "--cuda-device", "-2", "--threads", "+12"]), 6) {
        Command::Run(o) => {
            assert_eq!(o.workers, 12);
            assert!(o.cuda_enabled);
            assert_eq!(o.cuda_devices, vec![-2]);
            assert_eq!(o.node, "node:1");
        }
        Command::Usage => panic!("a valid command line"),
    }
    match parse_args(&args(&["-j", "0", "node:1", &w]), 6) {
        Command::Run(o) => assert_eq!(o.workers, 1),
        Command::Usage => panic!("a valid command line"),
    }
}

#[test]
fn usage_cases() {
    let w = wallet();
    let usage = |v: &[&str]| matches!(parse_args(&args(v), 4), Command::Usage);
    assert!(usage(&["node:1", &w, "-h"]));
    assert!(usage(&["--help"]));
    assert!(usage(&["node:1", &w, "-j"]));
    assert!(usage(&["node:1", &w, "-j", "many"]));
    assert!(usage(&["node:1", &w, "--cuda-device"]));
    assert!(usage(&["node:1", &w, "--cuda-device", "2147483648"]));
    assert!(usage(&["node:1", &w, "--cuda-devices"]));
    assert!(usage(&["node:1", &w, "--cuda-devices", ""]));
    assert!(usage(&["node:1", &w, "--cuda-devices", "0,,1"]));
    assert!(usage(&["node:1", &w, "--cuda-devices", "0,1,"]));
    assert!(usage(&["node:1", &w, "--cuda-devices", "0, 1"]));
    assert!(usage(&["node:1"]));
    assert!(usage(&["node:1", &w, "extra"]));
    assert!(usage(&["node:1", "abcd"]));
    assert!(usage(&[]));
}

#[test]
fn documented_device_list() {
    let w = wallet();
    match parse_args(&args(&["--cuda", "--cuda-devices", "0,1", "node:8034", &w]), 4) {
        Command::Run(o) => {
            assert!(o.cuda_enabled);
            assert_eq!(o.cuda_devices, vec![0, 1]);
        }
        Command::Usage => panic!("a valid command line"),
    }
    match parse_args(&args(&["--cuda-devices", "0,1,2,3", "--cuda-device", "5", "node:8034", &w]), 4) {
        Command::Run(o) => assert_eq!(o.cuda_devices, vec![5]),
        Command::Usage => panic!("a valid command line"),
    }
    match parse_args(&args(&["--cuda-device", "5", "--cuda-devices", "+7,-1", "node:8034", &w]), 4) {
        Command::Run(o) => assert_eq!(o.cuda_devices, vec![7, -1]),
        Command::Usage => panic!("a valid command line"),
    }
}
