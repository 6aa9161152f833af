use icontool::cmdline::DecompileArgs;
use icontool::compile;
use icontool::decompile::get_output_path;
use icontool::text::set_extension;

#[test]
fn test_get_output_path_default() {
    let args = DecompileArgs {
        output: None,
        file: String::from("tests/data/decompile/neck.dmi"),
    };
    let output_path = get_output_path(&args);
    assert_eq!("tests/data/decompile/neck.dmi.yml", output_path);
}

#[test]
fn test_get_output_path_override() {
    let args = DecompileArgs {
        output: Some(String::from("tests/data/decompile/neckbeard.dmi.yml")),
        file: String::from("tests/data/decompile/neck.dmi"),
    };
    let output_path = get_output_path(&args);
    assert_eq!("tests/data/decompile/neckbeard.dmi.yml", output_path);
}

#[test]
fn test_compile_output_path_default() {
    let r = compile::get_output_path(&None, "tests/data/compile/neck.dmi.yml").unwrap();
    assert_eq!("tests/data/compile/neck.dmi", r);
}

#[test]
fn test_compile_output_path_override() {
    let r = compile::get_output_path(
        &Some(String::from("tests/data/compile/neckbeard.dmi")),
        "tests/data/compile/neck.dmi.yml",
    )
    .unwrap();
    assert_eq!("tests/data/compile/neckbeard.dmi", r);
}

#[test]
fn test_compile_output_path_no_extension() {
    let r = compile::get_output_path(&None, "plain").unwrap();
    assert_eq!("plain.dmi", r);
}

#[test]
fn test_set_extension_rules() {
    assert_eq!("a/b.yml", set_extension("a/b.txt", "yml"));
    assert_eq!("a/b.yml", set_extension("a/b", "yml"));
    assert_eq!("a/.hidden.yml", set_extension("a/.hidden", "yml"));
    assert_eq!("a/..", set_extension("a/..", "yml"));
}
