use lib::cli::{
    assemble_cmd, detect_cmd, option_takes_value, parse_common, parse_order, parse_size, recover_cmd,
    required_value, run, run_sizes_in_range, size_in_range, value_after, Command,
};

fn args(list: &[&str]) -> Vec<String> {
    list.iter().map(|s| s.to_string()).collect()
}

#[test]
fn sizes_with_suffixes() {
    assert_eq!(parse_size("512").unwrap(), 512);
    assert_eq!(parse_size(" 64K ").unwrap(), 65536);
    assert_eq!(parse_size("256kb").unwrap(), 262144);
    assert_eq!(parse_size("1M").unwrap(), 1048576);
    assert_eq!(parse_size("2 MB").unwrap(), 2097152);
    assert_eq!(parse_size("+3k").unwrap(), 3072);
}

#[test]
fn invalid_sizes() {
    assert_eq!(parse_size("abc").unwrap_err(), "invalid size 'abc'");
    assert_eq!(parse_size("").unwrap_err(), "invalid size ''");
    assert_eq!(parse_size("-1").unwrap_err(), "invalid size '-1'");
    assert_eq!(parse_size("k").unwrap_err(), "invalid size 'k'");
}

#[test]
fn size_range_check() {
    assert!(size_in_range("64K"));
    assert!(size_in_range("nonsense"));
    assert!(!size_in_range("18446744073709551615k"));
}

#[test]
fn disk_orders() {
    assert_eq!(parse_order("0,1,2,3").unwrap(), vec![0, 1, 2, 3]);
    assert_eq!(parse_order(" 2 , 0,1").unwrap(), vec![2, 0, 1]);
    assert_eq!(parse_order("0,x,y").unwrap_err(), "invalid disk order entry 'x'");
    assert_eq!(parse_order("0,").unwrap_err(), "invalid disk order entry ''");
}

#[test]
fn option_values() {
    let a = args(&["d0", "--stripe", "64K", "--raid", "raid5", "--stripe", "1M"]);
    assert_eq!(value_after(&a, "--stripe"), Some("64K".to_string()));
    assert_eq!(value_after(&a, "--order"), None);
    assert_eq!(required_value(&a, "--raid").unwrap(), "raid5");
    assert_eq!(required_value(&a, "--output").unwrap_err(), "--output is required");
    assert!(option_takes_value("--layout"));
    assert!(!option_takes_value("--verbose"));
}

#[test]
fn common_options() {
    let a = args(&["d0.img", "--block-size", "4K", "d1.img", "--flag", "d2.img", "--max-blocks", "10"]);
    let c = parse_common(&a).unwrap();
    assert_eq!(c.images, vec!["d0.img", "d1.img", "d2.img"]);
    assert_eq!(c.block_size, 4096);
    assert_eq!(c.max_blocks, 10);
    let d = parse_common(&args(&["x.img", "--max-blocks", "many"])).unwrap();
    assert_eq!(d.block_size, 512);
    assert_eq!(d.max_blocks, 1_500_000);
    assert_eq!(
        parse_common(&args(&["--raid", "raid0"])).err().unwrap(),
        "at least one image path is required"
    );
    assert_eq!(parse_common(&args(&["a", "--block-size", "big"])).err().unwrap(), "invalid size 'big'");
}

#[test]
fn detect_arguments() {
    let q = detect_cmd(&args(&["a", "b", "-o", "r.json", "--top", "3", "--stripe", "256K"])).unwrap();
    assert_eq!(q.output, Some("r.json".to_string()));
    assert_eq!(q.markdown, None);
    assert_eq!(q.top, 3);
    assert_eq!(q.stripe, Some(262144));
    assert_eq!(q.raid, "auto");
    let r = detect_cmd(&args(&["a", "b", "--top", "x", "--raid", "raid1"])).unwrap();
    assert_eq!(r.top, 5);
    assert_eq!(r.raid, "raid1");
}

#[test]
fn assemble_arguments() {
    let q = assemble_cmd(&args(&[
        "a", "b", "c", "--raid", "raid5", "--stripe", "64K", "--output", "out.img", "--order", "2,1,0",
    ]))
    .unwrap();
    assert_eq!(q.common.images.len(), 3);
    assert_eq!(q.output, "out.img");
    assert_eq!(q.raid, "raid5");
    assert_eq!(q.stripe, 65536);
    assert_eq!(q.order, Some(vec![2, 1, 0]));
    assert_eq!(q.layout, None);
    assert_eq!(assemble_cmd(&args(&["a", "--raid", "raid0"])).err().unwrap(), "--output is required");
    assert_eq!(assemble_cmd(&args(&["a", "--output", "o"])).err().unwrap(), "--raid is required");
    assert_eq!(
        assemble_cmd(&args(&["a", "--output", "o", "--raid", "0"])).err().unwrap(),
        "--stripe is required"
    );
}

#[test]
fn recover_arguments() {
    let q = recover_cmd(&args(&["a", "b", "--missing", "2", "--stripe", "1K", "--output", "o"])).unwrap();
    assert_eq!(q.missing, 2);
    assert_eq!(q.stripe, 1024);
    assert_eq!(q.layout, "left-symmetric");
    assert_eq!(
        recover_cmd(&args(&["a", "--output", "o", "--missing", "two", "--stripe", "1K"])).err().unwrap(),
        "--missing must be a zero-based disk index"
    );
}

#[test]
fn subcommands() {
    assert!(matches!(run(args(&["raid"])), Ok(Command::Help)));
    assert!(matches!(run(args(&["raid", "--help"])), Ok(Command::Help)));
    assert!(matches!(run(args(&["raid", "scan", "a.img"])), Ok(Command::Scan(_))));
    assert_eq!(run(args(&["raid", "frobnicate"])).err().unwrap(), "unknown command 'frobnicate'");
    assert_eq!(run(args(&["raid", "scan"])).err().unwrap(), "at least one image path is required");
}

#[test]
fn shown_sizes_parse_back() {
    for size in [0usize, 1, 1000, 1024, 4096, 65536, 262144, 1048576, 3145728, 1536, 12345] {
        let shown = lib::detect::format_size(size);
        assert_eq!(parse_size(&shown).unwrap(), size);
    }
}

#[test]
fn decimal_text_parses_back() {
    for n in [0usize, 7, 10, 99, 123456789, usize::MAX] {
        let text = lib::text::usize_to_string(n);
        assert_eq!(parse_size(&text).unwrap(), n);
    }
}

#[test]
fn command_line_size_check() {
    let huge = "18446744073709551615k";
    assert!(run_sizes_in_range(&args(&["raid", "detect", "a.img", "--stripe", "64K"])));
    assert!(!run_sizes_in_range(&args(&["raid", "scan", "a.img", "--block-size", huge])));
    assert!(!run_sizes_in_range(&args(&["raid", "detect", "a.img", "--stripe", huge])));
    // help and unknown commands parse no size
    assert!(run_sizes_in_range(&args(&["raid", "help", "--stripe", huge])));
    assert!(run_sizes_in_range(&args(&["raid", "frobnicate", "--block-size", huge])));
    // assemble reports a missing --raid before it parses the stripe size
    assert!(run_sizes_in_range(&args(&["raid", "assemble", "a.img", "--output", "o", "--stripe", huge])));
    assert!(!run_sizes_in_range(&args(&["raid", "assemble", "a.img", "--output", "o", "--raid", "raid0", "--stripe", huge])));
    // recover reports a bad --missing before it parses the stripe size
    assert!(run_sizes_in_range(&args(&["raid", "recover", "a.img", "--output", "o", "--missing", "x", "--stripe", huge])));
    assert!(!run_sizes_in_range(&args(&["raid", "recover", "a.img", "--output", "o", "--missing", "1", "--stripe", huge])));
}
