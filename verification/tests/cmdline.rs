use icontool::cmdline::{Cli, Commands};

#[test]
fn test_compile_default() {
    let cli = Cli::parse_from(vec![
        "icontool",
        "compile",
        "icons/mob/clothing/neck.dmi.yml",
    ])
    .unwrap();
    match &cli.command {
        Commands::Compile(args) => {
            assert_eq!("icons/mob/clothing/neck.dmi.yml", args.file);
            assert_eq!(None, args.output);
        }
        _ => panic!("Subcommand 'compile' was not parsed to Commands::Compile"),
    }
}

#[test]
fn test_compile_output() {
    let cli = Cli::parse_from(vec![
        "icontool",
        "compile",
        "--output",
        "icons/mob/clothing/neckbeard.dmi",
        "icons/mob/clothing/neck.dmi.yml",
    ])
    .unwrap();
    match &cli.command {
        Commands::Compile(args) => {
            assert_eq!("icons/mob/clothing/neck.dmi.yml", args.file);
            assert_eq!(
                "icons/mob/clothing/neckbeard.dmi",
                args.output.as_ref().unwrap()
            );
        }
        _ => panic!("Subcommand 'compile' was not parsed to Commands::Compile"),
    }
}

#[test]
fn test_decompile_default() {
    let cli = Cli::parse_from(vec!["icontool", "decompile", "icons/mob/clothing/neck.dmi"])
        .unwrap();
    match &cli.command {
        Commands::Decompile(args) => {
            assert_eq!("icons/mob/clothing/neck.dmi", args.file);
            assert_eq!(None, args.output);
        }
        _ => panic!("Subcommand 'decompile' was not parsed to Commands::Decompile"),
    }
}

#[test]
fn test_decompile_output() {
    let cli = Cli::parse_from(vec![
        "icontool",
        "decompile",
        "--output",
        "icons/mob/clothing/neckbeard.dmi.yml",
        "icons/mob/clothing/neck.dmi",
    ])
    .unwrap();
    match &cli.command {
        Commands::Decompile(args) => {
            assert_eq!("icons/mob/clothing/neck.dmi", args.file);
            assert_eq!(
                "icons/mob/clothing/neckbeard.dmi.yml",
                args.output.as_ref().unwrap()
            );
        }
        _ => panic!("Subcommand 'decompile' was not parsed to Commands::Decompile"),
    }
}

#[test]
fn test_short_output_flag() {
    let cli = Cli::parse_from(vec!["icontool", "compile", "-o", "out.dmi", "in.dmi.yml"])
        .unwrap();
    match &cli.command {
        Commands::Compile(args) => {
            assert_eq!("in.dmi.yml", args.file);
            assert_eq!("out.dmi", args.output.as_ref().unwrap());
        }
        _ => panic!("Subcommand 'compile' was not parsed to Commands::Compile"),
    }
}

#[test]
fn test_rejects_unknown_subcommand() {
    assert!(Cli::parse_from(vec!["icontool", "transmogrify", "x"]).is_none());
}

#[test]
fn test_rejects_missing_file() {
    assert!(Cli::parse_from(vec!["icontool", "compile"]).is_none());
    assert!(Cli::parse_from(vec!["icontool", "compile", "--output", "x.dmi"]).is_none());
}

#[test]
fn test_rejects_unknown_flag() {
    assert!(Cli::parse_from(vec!["icontool", "compile", "--verbose", "x.yml"]).is_none());
}
