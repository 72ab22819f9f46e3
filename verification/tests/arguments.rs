//! The command line.

use hammer::args::{ArgParser, ArgStep, Args, ProgramIdError};
use hammer::keypair::Keypair;
use hammer::pubkey::{pubkey_to_string, Pubkey};
use solana_sdk::signature::Signer;

fn key(b: u8) -> Pubkey {
    Pubkey { bytes: [b; 32] }
}

fn signer() -> solana_sdk::signature::Keypair {
    solana_sdk::signer::keypair::keypair_from_seed(&[7u8; 32]).unwrap()
}

fn parser(args: &[&str]) -> ArgParser {
    ArgParser::new(args.iter().map(|a| a.to_string()).collect())
}

// Reads arguments that name no file but that of the funds source.
fn parse(args: &[&str]) -> Result<Args, String> {
    let mut parser = parser(args);
    loop {
        match parser.advance() {
            ArgStep::Keypair(_) => parser.supply_keypair(Keypair { bytes: [1; 64] }),
            ArgStep::KeyFile(path) => panic!("file {} wanted", path),
            ArgStep::Complete(args) => return Ok(args),
            ArgStep::Failed(message) => return Err(message),
        }
    }
}

fn refusal(args: &[&str]) -> String {
    parse(args).err().unwrap()
}

fn program(b: u8) -> String {
    pubkey_to_string(&key(b))
}

#[test]
fn everything_can_be_given() {
    let args = parse(&[
        "--keys-dir", "k",
        "--tpu-file", "t",
        "--stop-file", "s",
        "--rpc-server", "http://a",
        "--rpc-server", "http://b",
        "--funds-source", "f",
        "--program-id", &program(1),
        "--program-id", &program(2),
        "--contention-accounts-count", "0",
        "--total-transactions", "18446744073709551615",
        "--num-threads", "+3",
    ])
    .unwrap();
    assert_eq!(args.keys_dir, "k");
    assert_eq!(args.tpu_file, "t");
    assert_eq!(args.stop_file, "s");
    assert_eq!(args.rpc_servers, vec!["http://a", "http://b"]);
    assert!(args.funds_source.bytes == [1; 64]);
    assert_eq!(args.program_ids, vec![key(1), key(2)]);
    assert_eq!(args.contention_accounts_count, 0);
    assert_eq!(args.total_transactions, Some(u64::MAX));
    assert_eq!(args.num_threads, 3);
}

#[test]
fn defaults_stand_in() {
    let args =
        parse(&["--tpu-file", "t", "--funds-source", "f", "--program-id", &program(1)]).unwrap();
    assert_eq!(args.keys_dir, "./keys");
    assert_eq!(args.stop_file, "stop");
    assert_eq!(args.rpc_servers.len(), 0);
    assert_eq!(args.contention_accounts_count, 1);
    assert_eq!(args.total_transactions, None);
    assert_eq!(args.num_threads, 8);
}

#[test]
fn there_is_at_most_one_account_to_contend_for() {
    let id = program(1);
    let mut given = vec!["--tpu-file", "t", "--funds-source", "f", "--program-id", &id];
    given.extend(["--num-threads", "1"]);
    assert_eq!(parse(&given).unwrap().contention_accounts_count, 0);
    for threads in ["2", "3", "7", "4294967295"] {
        given.pop();
        given.push(threads);
        assert_eq!(parse(&given).unwrap().contention_accounts_count, 1);
    }
}

#[test]
fn what_is_required_is_asked_for_in_order() {
    let id = program(1);
    assert_eq!(refusal(&[]), "--tpu-file argument is required");
    assert_eq!(refusal(&["--tpu-file", "t"]), "--funds-source argument is required");
    assert_eq!(
        refusal(&["--tpu-file", "t", "--funds-source", "f"]),
        "At least one program id specified via --program-id option is required"
    );
    assert_eq!(
        refusal(&[
            "--tpu-file", "t", "--funds-source", "f", "--program-id", &id, "--num-threads", "0",
        ]),
        "--num-threads must takea nonzero argument"
    );
}

#[test]
fn options_require_values() {
    for option in [
        "--keys-dir",
        "--tpu-file",
        "--stop-file",
        "--rpc-server",
        "--funds-source",
        "--program-id",
        "--contention-accounts-count",
        "--total-transactions",
        "--num-threads",
    ] {
        assert_eq!(refusal(&[option]), format!("{} requires a value", option));
    }
}

#[test]
fn options_are_given_once() {
    for (option, value, message) in [
        ("--keys-dir", "a", "Duplicate --keys-dir argument"),
        ("--tpu-file", "a", "Duplicate --tpu-file"),
        ("--stop-file", "a", "Duplicate --stop-file"),
        ("--funds-source", "a", "Duplicate --funds-source argument"),
        ("--contention-accounts-count", "1", "Duplicate --contention-accounts-count argument"),
        ("--total-transactions", "1", "Duplicate --total-transactions argument"),
        ("--num-threads", "1", "Duplicate --num-threads argument"),
    ] {
        assert_eq!(refusal(&[option, value, option]), message);
    }
}

#[test]
fn a_program_is_named_once() {
    let id = program(1);
    assert_eq!(
        refusal(&["--program-id", &id, "--program-id", &id]),
        format!("Duplicate program id: {}", id)
    );
}

#[test]
fn unknown_options_are_refused() {
    assert_eq!(refusal(&["--help"]), "Invalid argument: --help");
    assert_eq!(refusal(&["--rpc-server", "a", "b"]), "Invalid argument: b");
}

#[test]
fn numbers_are_decimal_and_fit() {
    for (option, text) in [
        ("--num-threads", "4294967296"),
        ("--num-threads", "x"),
        ("--num-threads", ""),
        ("--contention-accounts-count", "-1"),
        ("--contention-accounts-count", " 1"),
    ] {
        let expected = text.parse::<u32>().unwrap_err().to_string();
        assert_eq!(refusal(&[option, text]), expected);
    }
    for text in ["18446744073709551616", "1.5", "+"] {
        let expected = text.parse::<u64>().unwrap_err().to_string();
        assert_eq!(refusal(&["--total-transactions", text]), expected);
    }
    assert_eq!(refusal(&["--num-threads", "x"]), "invalid digit found in string");
}

#[test]
fn files_are_asked_for() {
    let mut parser = parser(&["--funds-source", "fund.json", "--program-id", "id.json"]);
    assert!(matches!(parser.advance(), ArgStep::Keypair(path) if path == "fund.json"));
    assert!(matches!(parser.advance(), ArgStep::Keypair(path) if path == "fund.json"));
    assert_eq!(parser.supply_key_file(&Ok(vec![])), Ok(()));
    parser.supply_keypair(Keypair { bytes: [1; 64] });
    assert!(matches!(parser.advance(), ArgStep::KeyFile(path) if path == "id.json"));
    let numbers: Vec<String> = signer().to_bytes().iter().map(|b| b.to_string()).collect();
    let file = format!("[{}]", numbers.join(",")).into_bytes();
    assert_eq!(parser.supply_key_file(&Ok(file)), Ok(()));
    let step = parser.advance();
    assert!(matches!(step, ArgStep::Failed(m) if m == "--tpu-file argument is required"));
    assert_eq!(parser.finish().err().unwrap(), "--tpu-file argument is required");
}

#[test]
fn a_key_file_names_the_program() {
    let id = signer().pubkey().to_string();
    let numbers: Vec<String> = signer().to_bytes().iter().map(|b| b.to_string()).collect();
    let file = Ok(format!("[{}]", numbers.join(",")).into_bytes());
    let mut parser = parser(&["--program-id", &id, "--program-id", "id.json"]);
    assert!(matches!(parser.advance(), ArgStep::KeyFile(_)));
    assert_eq!(
        parser.supply_key_file(&file),
        Err(ProgramIdError::Refused(format!("Duplicate program id: {}", id)))
    );
}

#[test]
fn key_files_are_refused() {
    let refused = |file: Result<Vec<u8>, String>| {
        let mut parser = parser(&["--program-id", "id.json"]);
        assert!(matches!(parser.advance(), ArgStep::KeyFile(_)));
        parser.supply_key_file(&file).unwrap_err()
    };
    assert_eq!(
        refused(Err("gone".to_string())),
        ProgramIdError::Refused("Failed to read key file 'id.json': gone".to_string())
    );
    assert_eq!(
        refused(Ok(b"[1]".to_vec())),
        ProgramIdError::Refused("Short key file".to_string())
    );
    assert_eq!(refused(Ok(b"[1,a]".to_vec())), ProgramIdError::Malformed);
    let reason = ed25519_dalek::Keypair::from_bytes(&[1, 2]).unwrap_err();
    assert_eq!(
        refused(Ok(b"[1,2]".to_vec())),
        ProgramIdError::Refused(format!("Invalid key file 'id.json' contents: {}", reason))
    );
}

#[test]
fn the_order_of_options_does_not_matter() {
    let (one, two) = (program(1), program(2));
    let pairs = [
        ["--keys-dir", "k"],
        ["--tpu-file", "t"],
        ["--rpc-server", "a"],
        ["--funds-source", "f"],
        ["--program-id", one.as_str()],
        ["--num-threads", "5"],
        ["--rpc-server", "b"],
        ["--program-id", two.as_str()],
        ["--total-transactions", "9"],
    ];
    // Orders in which the servers and the programs keep theirs.
    for order in [[0, 1, 2, 3, 4, 5, 6, 7, 8], [8, 4, 2, 7, 6, 5, 3, 1, 0], [5, 2, 3, 6, 8, 4, 1, 0, 7]] {
        let given: Vec<&str> = order.iter().flat_map(|i: &usize| pairs[*i]).collect();
        let args = parse(&given).unwrap();
        assert_eq!(args.keys_dir, "k");
        assert_eq!(args.tpu_file, "t");
        assert_eq!(args.stop_file, "stop");
        assert_eq!(args.rpc_servers, vec!["a", "b"]);
        assert_eq!(args.program_ids, vec![key(1), key(2)]);
        assert_eq!(args.contention_accounts_count, 1);
        assert_eq!(args.total_transactions, Some(9));
        assert_eq!(args.num_threads, 5);
    }
}

#[test]
fn options_are_refused_in_any_order() {
    let id = program(1);
    assert!(parse(&["--program-id", &id, "--tpu-file", "t", "--tpu-file", "u"]).is_err());
    assert!(parse(&["--tpu-file", "u", "--program-id", &id, "--tpu-file", "t"]).is_err());
    assert!(parse(&["--num-threads", "x", "--tpu-file", "t"]).is_err());
    assert!(parse(&["--tpu-file", "t", "--num-threads", "x"]).is_err());
}
