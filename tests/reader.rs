use rustmal::printer::pr_str;
use rustmal::reader::{read_atom, read_form, read_list, read_str, select_tokens, tokenize, Reader};
use rustmal::step1_read_print::rep;
use rustmal::types::MalType::{
    MalBool, MalError, MalKeyword, MalList, MalNil, MalNumber, MalSymbol, MalVector,
};

fn strings(v: &[&str]) -> Vec<String> {
    v.iter().map(|s| s.to_string()).collect()
}

#[test]
fn test_tokenize() {
    assert_eq!(tokenize("(a, b)"), vec!["(", "a", "b", ")"]);
    assert_eq!(tokenize("(a, b);(c,d,e)"), vec!["(", "a", "b", ")"]);
    assert_eq!(tokenize("(+ a, b)"), vec!["(", "+", "a", "b", ")"]);
    assert_eq!(tokenize("(+ 12, 34)"), vec!["(", "+", "12", "34", ")"]);
}

#[test]
fn test_read_form() {
    // (+ 1, (* 2, 3))
    let mut reader = Reader {
        tokens: vec![
            String::from("("),
            String::from("+"),
            String::from("1"),
            String::from("("),
            String::from("*"),
            String::from("2"),
            String::from("3"),
            String::from(")"),
            String::from(")"),
        ],
        position: 0,
    };
    assert_eq!(
        read_form(&mut reader),
        MalList {
            elm: vec![
                MalSymbol(String::from("+")),
                MalNumber(1),
                MalList {
                    elm: vec![MalSymbol(String::from("*")), MalNumber(2), MalNumber(3)]
                }
            ]
        }
    )
}

#[test]
fn test_read_list() {
    let mut reader = Reader::new(vec![
        String::from("("),
        String::from("1"),
        String::from("2"),
        String::from(")"),
    ]);
    assert_eq!(
        read_list(&mut reader),
        MalList {
            elm: vec![MalNumber(1), MalNumber(2)]
        }
    )
}

#[test]
fn test_read_atom() {
    let mut reader = Reader {
        tokens: vec![String::from("12"), String::from("x")],
        position: 0,
    };
    assert_eq!(read_atom(&mut reader), MalNumber(12));
    assert_eq!(read_atom(&mut reader), MalSymbol(String::from("x")));
}

#[test]
fn tokenize_drops_trailing_separators_and_keeps_strings() {
    assert_eq!(tokenize("(a) , "), vec!["(", "a", ")"]);
    assert_eq!(tokenize("~@x 'y"), vec!["~@", "x", "'", "y"]);
    assert_eq!(tokenize("(str \"a b\")"), vec!["(", "str", "\"a b\"", ")"]);
    assert_eq!(tokenize("; only a comment"), Vec::<String>::new());
    assert_eq!(tokenize(""), Vec::<String>::new());
}

#[test]
fn select_tokens_drops_comments_and_empty_captures() {
    let kept = select_tokens(strings(&["(", "", "a", ";x", ")", ""]));
    assert_eq!(kept, vec!["(", "a", ")"]);
}

#[test]
fn read_nested_list() {
    assert_eq!(
        read_str("(+ 1 (* 2 3))"),
        MalList {
            elm: vec![
                MalSymbol(String::from("+")),
                MalNumber(1),
                MalList {
                    elm: vec![MalSymbol(String::from("*")), MalNumber(2), MalNumber(3)]
                }
            ]
        }
    );
}

#[test]
fn vector_differs_from_list() {
    let v = read_str("[1 2]");
    assert_eq!(v, MalVector { elm: vec![MalNumber(1), MalNumber(2)] });
    assert_ne!(v, read_str("(1 2)"));
}

#[test]
fn keyword_round_trip() {
    let k = read_str(":foo");
    assert_eq!(k, MalKeyword(String::from("\u{29e}foo")));
    assert_eq!(pr_str(&k), ":foo");
    assert_eq!(read_str(&pr_str(&k)), k);
}

#[test]
fn negative_number_keeps_its_sign() {
    assert_eq!(read_str("-5"), MalNumber(-5));
    assert_eq!(read_str("-2147483648"), MalNumber(i32::MIN));
    assert_eq!(read_str("2147483647"), MalNumber(i32::MAX));
    assert_eq!(read_str("007"), MalNumber(7));
}

#[test]
fn number_out_of_range_is_an_error() {
    assert_eq!(read_str("2147483648"), MalError(String::from("number out of range")));
    assert_eq!(read_str("-2147483649"), MalError(String::from("number out of range")));
    assert_eq!(read_str("99999999999999999999"), MalError(String::from("number out of range")));
}

#[test]
fn not_quite_numbers_are_symbols() {
    assert_eq!(read_str("a12"), MalSymbol(String::from("a12")));
    assert_eq!(read_str("-"), MalSymbol(String::from("-")));
    assert_eq!(read_str("1a"), MalSymbol(String::from("1a")));
}

#[test]
fn reserved_words() {
    assert_eq!(read_str("true"), MalBool(true));
    assert_eq!(read_str("false"), MalBool(false));
    assert_eq!(read_str("nil"), MalNil);
    assert_eq!(rep("nil"), "nil");
    assert_eq!(rep("true"), "true");
}

#[test]
fn unterminated_list_is_described() {
    assert_eq!(read_str("(1 2"), MalError(String::from("expected ) but not")));
    assert_eq!(read_str("[1 (2"), MalError(String::from("expected ] but not")));
    assert_eq!(rep("(1 2"), "expected ) but not");
}

#[test]
fn empty_input_is_described() {
    assert_eq!(read_str(""), MalError(String::from("empty code")));
    assert_eq!(read_str("  , ; nothing"), MalError(String::from("empty code")));
}

#[test]
fn read_list_needs_its_opening_token() {
    let mut reader = Reader::new(strings(&["1", ")"]));
    assert_eq!(read_list(&mut reader), MalError(String::from("expected ( but not")));
    assert_eq!(reader.position, 1);
}

#[test]
fn only_the_first_form_is_read() {
    assert_eq!(read_str("1 2"), MalNumber(1));
    assert_eq!(rep("(a) (b)"), "(a)");
}

#[test]
fn printer_renders_each_variant() {
    assert_eq!(pr_str(&MalNumber(-42)), "-42");
    assert_eq!(pr_str(&MalNumber(0)), "0");
    assert_eq!(pr_str(&MalList { elm: vec![] }), "()");
    assert_eq!(pr_str(&MalVector { elm: vec![] }), "[]");
    assert_eq!(pr_str(&MalError(String::from("oops"))), "oops");
    assert_eq!(
        pr_str(&MalVector {
            elm: vec![MalNil, MalBool(false), MalKeyword(String::from("\u{29e}k")), MalSymbol(String::from("s"))]
        }),
        "[nil false :k s]"
    );
}

#[test]
fn rep_prints_what_it_reads() {
    assert_eq!(rep("(+ 1, (* 2 3))"), "(+ 1 (* 2 3))");
    assert_eq!(rep("  [ 1 , [2] ( ) ]  "), "[1 [2] ()]");
}

#[test]
fn printing_is_idempotent_through_reading() {
    let trees = vec![
        MalList {
            elm: vec![
                MalSymbol(String::from("f")),
                MalNumber(-3),
                MalVector { elm: vec![MalKeyword(String::from("\u{29e}a")), MalNil] },
                MalList { elm: vec![] },
                MalBool(true),
            ],
        },
        MalVector { elm: vec![MalNumber(i32::MIN), MalNumber(i32::MAX)] },
        MalSymbol(String::from("x")),
    ];
    for v in &trees {
        let once = pr_str(v);
        assert_eq!(pr_str(&read_str(&once)), once);
    }
}
