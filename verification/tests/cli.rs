//! The argument rules of the two subcommands, and the usage texts.

use chunkcrypt::{
    parse_args, parse_d_args, parse_e_args, usage, usage_d, usage_e, Chunk, CliError, Params,
};

fn words(list: &[&str]) -> Vec<String> {
    list.iter().map(|s| s.to_string()).collect()
}

#[test]
fn encrypt_args_full() {
    let args = words(&["file.txt", "-c", "32", "-o", "outdir"]);
    let p = parse_e_args(&args).unwrap();
    assert_eq!(p.path_in, "file.txt");
    assert_eq!(p.path_out, "outdir");
    assert_eq!(p.chunk_len, Some(32));
}

#[test]
fn encrypt_args_defaults() {
    let args = words(&["file.txt"]);
    let p = parse_e_args(&args).unwrap();
    assert_eq!(p.path_in, "file.txt");
    assert_eq!(p.path_out, ".");
    assert_eq!(p.chunk_len, None);
}

#[test]
fn encrypt_args_option_order() {
    let args = words(&["in", "-o", "d", "-c", "48"]);
    let p = parse_e_args(&args).unwrap();
    assert_eq!(p.path_out, "d");
    assert_eq!(p.chunk_len, Some(48));
}

#[test]
fn encrypt_args_errors() {
    assert_eq!(parse_e_args(&words(&[])).unwrap_err(), CliError::UsageEncrypt);
    assert_eq!(parse_e_args(&words(&["f", "-c", "0"])).unwrap_err(), CliError::ChunkLenZero);
    assert_eq!(
        parse_e_args(&words(&["f", "-c", "30"])).unwrap_err(),
        CliError::ChunkLenNotMultiple
    );
    assert_eq!(parse_e_args(&words(&["f", "-c", "abc"])).unwrap_err(), CliError::BadNumber);
    assert_eq!(parse_e_args(&words(&["f", "-c"])).unwrap_err(), CliError::Usage);
    assert_eq!(parse_e_args(&words(&["f", "-x", "1"])).unwrap_err(), CliError::Usage);
    assert_eq!(parse_e_args(&words(&["f", "stray"])).unwrap_err(), CliError::Usage);
}

#[test]
fn decrypt_args_round_trip_through_text_forms() {
    // A chunk's own text forms make a valid chunk word.
    let chunk = Chunk::new((10u8..26).collect(), (50u8..66).collect());
    let spec = format!("{}:{}", chunk.id_string(), chunk.key_string());
    let args = words(&["indir", "out.bin", "100", &spec]);
    let p = parse_d_args(&args).unwrap();
    assert_eq!(p.path_in, "indir");
    assert_eq!(p.path_out, "out.bin");
    assert_eq!(p.file_len, 100);
    assert_eq!(p.chunks.len(), 1);
    assert_eq!(p.chunks[0], chunk);
}

#[test]
fn decrypt_args_stop_at_dash() {
    let chunk = Chunk::new((10u8..26).collect(), (50u8..66).collect());
    let spec = format!("{}:{}", chunk.id_string(), chunk.key_string());
    let args = words(&["indir", "out.bin", "100", &spec, "-whatever", "ignored"]);
    let p = parse_d_args(&args).unwrap();
    assert_eq!(p.chunks.len(), 1);
}

#[test]
fn decrypt_args_errors() {
    assert_eq!(parse_d_args(&words(&[])).unwrap_err(), CliError::UsageDecrypt);
    assert_eq!(parse_d_args(&words(&["in"])).unwrap_err(), CliError::UsageDecrypt);
    assert_eq!(parse_d_args(&words(&["in", "out"])).unwrap_err(), CliError::UsageDecrypt);
    assert_eq!(parse_d_args(&words(&["in", "out", "xx"])).unwrap_err(), CliError::BadNumber);
    assert_eq!(
        parse_d_args(&words(&["in", "out", "99999999999999999999999"])).unwrap_err(),
        CliError::BadNumber
    );
    assert_eq!(parse_d_args(&words(&["in", "out", "100"])).unwrap_err(), CliError::NoChunks);
    assert_eq!(
        parse_d_args(&words(&["in", "out", "100", "nocolon"])).unwrap_err(),
        CliError::MalformedChunkSpec
    );
    assert_eq!(
        parse_d_args(&words(&["in", "out", "100", "a:b:c"])).unwrap_err(),
        CliError::MalformedChunkSpec
    );
    assert_eq!(
        parse_d_args(&words(&["in", "out", "100", "zz:AAECAwQFBgcICQoLDA0ODw=="])).unwrap_err(),
        CliError::MalformedChunkSpec
    );
    assert_eq!(
        parse_d_args(&words(&["in", "out", "100", "000102030405060708090a0b0c0d0e0f:AAAA"]))
            .unwrap_err(),
        CliError::MalformedChunkSpec
    );
}

#[test]
fn subcommand_dispatch() {
    match parse_args(&words(&["e", "file.txt", "-c", "32"])).unwrap() {
        Params::Encrypt(p) => {
            assert_eq!(p.path_in, "file.txt");
            assert_eq!(p.chunk_len, Some(32));
        },
        Params::Decrypt(_) => panic!("expected the encrypt subcommand"),
    }
    let chunk = Chunk::new((10u8..26).collect(), (50u8..66).collect());
    let spec = format!("{}:{}", chunk.id_string(), chunk.key_string());
    match parse_args(&words(&["d", "indir", "out", "100", &spec])).unwrap() {
        Params::Decrypt(p) => {
            assert_eq!(p.file_len, 100);
            assert_eq!(p.chunks.len(), 1);
        },
        Params::Encrypt(_) => panic!("expected the decrypt subcommand"),
    }
    assert_eq!(parse_args(&words(&[])).unwrap_err(), CliError::Usage);
    assert_eq!(parse_args(&words(&["x", "file"])).unwrap_err(), CliError::Usage);
    assert_eq!(parse_args(&words(&["e"])).unwrap_err(), CliError::UsageEncrypt);
    assert_eq!(parse_args(&words(&["d"])).unwrap_err(), CliError::UsageDecrypt);
}

#[test]
fn usage_texts() {
    assert_eq!(usage("prog"), "Usage: prog (e | d) <path_in> [options]");
    let e = usage_e("prog");
    assert!(e.starts_with("Usage: prog e <path_in> [options]\n"));
    assert!(e.contains("-c chunk_len"));
    assert!(e.contains("-o out_path"));
    let d = usage_d("prog");
    assert!(d.starts_with("Usage: prog d <path_in> <path_out> <file_len> (<chunk> ...)\n"));
    assert!(d.contains("separated by a colon"));
}
