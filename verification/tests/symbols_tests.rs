use ootr::symbols::{c_symbol_kinds, c_symbol_line, parse_hex_number, split_lines, symbol_tables, hex8, SymbolError};

fn chars(s: &str) -> Vec<char> {
    s.chars().collect()
}

fn text(v: &[char]) -> String {
    v.iter().collect()
}

#[test]
fn lines_split_like_str_lines() {
    let lines: Vec<String> = split_lines(&chars("a\nb\r\n\nc")).iter().map(|l| text(l)).collect();
    assert_eq!(lines, vec!["a", "b", "", "c"]);
    let lines: Vec<String> = split_lines(&chars("x\n")).iter().map(|l| text(l)).collect();
    assert_eq!(lines, vec!["x"]);
    assert!(split_lines(&chars("")).is_empty());
    let lines: Vec<String> = split_lines(&chars("end\r")).iter().map(|l| text(l)).collect();
    assert_eq!(lines, vec!["end\r"]);
}

#[test]
fn hex_numbers_parse_like_from_str_radix() {
    for s in ["0", "1f", "FF", "+10", "80400000", "ffffffffffffffff"] {
        assert_eq!(parse_hex_number(&chars(s)), usize::from_str_radix(s, 16).ok(), "{s}");
    }
    for s in ["", "+", "-1", "g", "1 ", "10000000000000000"] {
        assert_eq!(parse_hex_number(&chars(s)), None, "{s}");
    }
}

#[test]
fn eight_digit_uppercase_addresses() {
    assert_eq!(hex8(0x3480000), "03480000");
    assert_eq!(hex8(0xab), "000000AB");
    assert_eq!(hex8(0x1_2345_6789), "123456789");
}

#[test]
fn compiler_symbol_lines() {
    let parse = |s: &str| c_symbol_line(&chars(s)).map(|(sec, name)| (text(&sec), text(&name)));
    assert_eq!(
        parse("80400000 g     F .text\t00000020 main_hook"),
        Some((String::from("text"), String::from("main_hook")))
    );
    assert_eq!(
        parse("80401000 l     O .data\t00000004 counter  "),
        Some((String::from("data"), String::from("counter")))
    );
    // a name starting with `.` takes the white space before it, when there are two
    assert_eq!(parse("80401000 l .bss  00000004  .x"), Some((String::from("bss"), String::from(" .x"))));
    assert_eq!(parse("80401000 l .bss 00000004 .x"), None);
    // names of one character need two spaces before them too
    assert_eq!(parse("80401000 l .bss 00000004 x"), None);
    assert_eq!(parse("80401000 l .bss 00000004  x"), Some((String::from("bss"), String::from(" x"))));
    assert_eq!(parse("zz .text 00000004 name"), None);
    assert_eq!(parse("80401000 .text 0000zz04 name"), None);
    assert_eq!(parse("80401000 .text 00000004 two words"), None);
    // the last `.` that fits is taken
    assert_eq!(
        parse("80401000 a.b .text 00000004 name"),
        Some((String::from("text"), String::from("name")))
    );
}

#[test]
fn compiler_symbol_kinds() {
    let lines = vec![
        chars("80400000 g     F .text\t00000020 main_hook"),
        chars("not a symbol"),
        chars("80401000 l     O .data\t00000004 counter"),
    ];
    let kinds: Vec<(String, bool)> = c_symbol_kinds(&lines).iter().map(|(n, k)| (text(n), *k)).collect();
    assert_eq!(kinds, vec![(String::from("main_hook"), true), (String::from("counter"), false)]);
}

#[test]
fn symbol_tables_from_assembler_symbols() {
    let symbol_file = chars(
        "80400000 PAYLOAD_START\n80400010 DATA_A\n80400010 .dbl:0C\n80400020 main_hook\n80000400 PATCH_X\n80400100 PAYLOAD_END\n00001000 LOCAL\n80400030 .label\n",
    );
    let c_types = vec![(chars("DATA_A"), false)];
    let tables = symbol_tables(&symbol_file, &c_types).unwrap();
    let data: Vec<(String, String, usize)> =
        tables.data_symbols.iter().map(|d| (text(&d.name), d.address.clone(), d.length)).collect();
    assert_eq!(
        data,
        vec![
            (String::from("PAYLOAD_START"), String::from("03480000"), 0),
            (String::from("DATA_A"), String::from("03480010"), 12),
        ]
    );
    let patch: Vec<(String, usize)> = tables.patch_symbols.iter().map(|(n, a)| (text(n), *a)).collect();
    assert_eq!(patch, vec![(String::from("PATCH_X"), 0x80000400), (String::from("PAYLOAD_END"), 0x80400100)]);
}

#[test]
fn symbol_table_errors() {
    let missing = chars("80400000 PAYLOAD_START\n");
    assert!(matches!(symbol_tables(&missing, &vec![]), Err(SymbolError::MissingSymbol)));
    let bad_length = chars("80400000 PAYLOAD_START\n80400100 PAYLOAD_END\n80400000 .x:zz\n");
    assert!(matches!(symbol_tables(&bad_length, &vec![]), Err(SymbolError::BadNumber)));
    let below = chars("80000000 PAYLOAD_START\n80400100 PAYLOAD_END\n80300000 LOW\n");
    assert!(matches!(symbol_tables(&below, &vec![]), Err(SymbolError::BelowPayloadBase)));
    let bad_address = chars("80400000 PAYLOAD_START\n80400100 PAYLOAD_END\n8zz DATA\n");
    assert!(matches!(symbol_tables(&bad_address, &vec![]), Err(SymbolError::BadNumber)));
}
