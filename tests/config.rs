use tabdiff::cli::{parse_delim, Cli};
use tabdiff::config::{check_dups, check_key_cols_presence, Config};
use tabdiff::sym::Interner;

fn strings(v: &[&str]) -> Vec<String> {
    v.iter().map(|s| s.to_string()).collect()
}

#[test]
fn delimiter_must_be_one_byte() {
    assert_eq!(parse_delim(";"), Ok(b';'));
    assert_eq!(parse_delim("\t"), Ok(b'\t'));
    assert_eq!(parse_delim(""), Err("delimiter can only be a single ASCII character"));
    assert_eq!(parse_delim(",,"), Err("delimiter can only be a single ASCII character"));
}

#[test]
fn duplicates_are_listed_once_each() {
    assert_eq!(check_dups(&strings(&["a", "b", "c"]), "dup:"), Ok(()));
    assert_eq!(
        check_dups(&strings(&["a", "b", "a", "b", "a"]), "dup:"),
        Err("dup: a, b".to_string())
    );
}

#[test]
fn missing_key_columns_are_named() {
    let cols = strings(&["id", "name"]);
    assert_eq!(check_key_cols_presence(&strings(&["id"]), &cols, "left.csv"), Ok(()));
    assert_eq!(
        check_key_cols_presence(&strings(&["id", "x", "y"]), &cols, "left.csv"),
        Err("missing following key columns from left.csv: x, y".to_string())
    );
}

fn config(keys: &[&str], lh: &[&str], rh: &[&str], interner: &mut Interner) -> Result<Config, String> {
    let cli = Cli {
        key_cols: strings(keys),
        left_file: "l.csv".to_string(),
        right_file: "r.csv".to_string(),
        left_delim: b',',
        right_delim: b';',
        out_file: "out.html".to_string(),
    };
    Config::try_from_cli(cli, &strings(lh), &strings(rh), interner)
}

#[test]
fn config_splits_common_and_ignored_columns() {
    let mut interner = Interner::new();
    let c = config(&["id"], &["id", "a", "l"], &["r", "a", "id"], &mut interner).unwrap();
    let names = |v: &Vec<usize>| -> Vec<String> {
        v.iter().map(|&s| interner.resolve(s).unwrap().to_string()).collect()
    };
    assert_eq!(names(&c.key_cols), vec!["id"]);
    assert_eq!(names(&c.common_cols), vec!["id", "a"]);
    assert_eq!(names(&c.ignored_cols[0]), vec!["l"]);
    assert_eq!(names(&c.ignored_cols[1]), vec!["r"]);
    assert_eq!(c.delims, [b',', b';']);
    assert_eq!(c.files[1], "r.csv");
    assert_eq!(c.out_file, "out.html");
}

#[test]
fn config_errors() {
    let mut interner = Interner::new();
    assert_eq!(
        config(&["id", "id"], &["id"], &["id"], &mut interner).err().unwrap(),
        "duplicate keyCols: id"
    );
    assert_eq!(
        config(&["id"], &["id", "a", "a"], &["id"], &mut interner).err().unwrap(),
        "duplicate columns in left file: a"
    );
    assert_eq!(
        config(&["id"], &["id"], &["id", "b", "b"], &mut interner).err().unwrap(),
        "duplicate columns in right file: b"
    );
    assert_eq!(
        config(&["id"], &["a"], &["id"], &mut interner).err().unwrap(),
        "missing following key columns from l.csv: id"
    );
    assert_eq!(
        config(&["id"], &["id", "a"], &["a"], &mut interner).err().unwrap(),
        "missing following key columns from r.csv: id"
    );
    assert_eq!(
        config(&["id"], &["id", "a"], &["id", "b"], &mut interner).err().unwrap(),
        "no non-key columns present"
    );
}
