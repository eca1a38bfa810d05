use stark::bridge::{Bridge, Shape};
use stark::env::create_frame;
use stark::eval::{EvalStack, Slot, Step};
use stark::parser::{parse, tokenise, ParseError, Token};
use stark::region::Region;
use stark::symbol::{SymbolTable, S_DEF, S_IF, S_QUOTE};
use stark::value::{Cfg, Datum, Kind, Value};

fn read(text: &str) -> (Region, SymbolTable, Result<Value, ParseError>) {
    let mut r = Region::acquire(1 << 16);
    let mut t = SymbolTable::new();
    let v = parse(&mut r, &mut t, text);
    (r, t, v)
}

/// Writes a value back as text, symbols by name.
fn show(r: &Region, t: &SymbolTable, v: Value) -> String {
    match r.get(v).unwrap() {
        Datum::I64(n) => format!("{}", n),
        Datum::Bool(true) => "#t".to_string(),
        Datum::Bool(false) => "#f".to_string(),
        Datum::Symbol(k) => t.resolve(*k).unwrap(),
        Datum::Nil => "()".to_string(),
        Datum::Pair(_, _) => {
            let mut parts = Vec::new();
            let mut l = v;
            while let Some(Datum::Pair(a, b)) = r.get(l) {
                parts.push(show(r, t, *a));
                l = *b;
            }
            assert_eq!(r.get(l), Some(&Datum::Nil));
            format!("({})", parts.join(" "))
        }
        other => panic!("{:?}", other),
    }
}

fn shown(text: &str) -> String {
    let (r, t, v) = read(text);
    show(&r, &t, v.unwrap())
}

#[test]
fn tokens_are_parentheses_and_atoms() {
    assert_eq!(tokenise(b""), vec![]);
    assert_eq!(tokenise(b" \t\r\n"), vec![]);
    assert_eq!(tokenise(b"()"), vec![Token::Open, Token::Close]);
    assert_eq!(tokenise(b"ab"), vec![Token::Atom(0, 2)]);
    assert_eq!(
        tokenise(b"(add 2\t33)"),
        vec![
            Token::Open,
            Token::Atom(1, 4),
            Token::Atom(5, 6),
            Token::Atom(7, 9),
            Token::Close
        ]
    );
    assert_eq!(
        tokenise(b"a(b)c"),
        vec![Token::Atom(0, 1), Token::Open, Token::Atom(2, 3), Token::Close, Token::Atom(4, 5)]
    );
    assert_eq!(tokenise(b"; all comment"), vec![]);
    assert_eq!(tokenise(b";\n"), vec![]);
    assert_eq!(tokenise(b"a;b c\nd"), vec![Token::Atom(0, 1), Token::Atom(6, 7)]);
    assert_eq!(tokenise(b"x ; (\n)"), vec![Token::Atom(0, 1), Token::Close]);
}

#[test]
fn atoms_are_integers_booleans_and_symbols() {
    let cases: Vec<(&str, Datum)> = vec![
        ("42", Datum::I64(42)),
        ("0", Datum::I64(0)),
        ("007", Datum::I64(7)),
        ("-7", Datum::I64(-7)),
        ("-0", Datum::I64(0)),
        ("9223372036854775807", Datum::I64(i64::MAX)),
        ("-9223372036854775808", Datum::I64(i64::MIN)),
        ("-9223372036854775807", Datum::I64(-i64::MAX)),
        ("#t", Datum::Bool(true)),
        ("#f", Datum::Bool(false)),
        ("  12  ", Datum::I64(12)),
    ];
    for (text, want) in cases {
        let (r, _, v) = read(text);
        assert_eq!(r.get(v.unwrap()), Some(&want), "{}", text);
        assert_eq!(r.len(), 1);
    }
    for text in ["x", "-", "+5", "12ab", "--1", "1-", "#", "#tt", "#T", "frame-size", "a.b", "-x"] {
        let (r, t, v) = read(text);
        assert_eq!(r.get(v.unwrap()), Some(&Datum::Symbol(13)), "{}", text);
        assert_eq!(t.resolve(13), Some(text.to_string()));
        assert_eq!(r.used(), 12);
    }
    let (r, t, v) = read("if");
    assert_eq!(r.get(v.unwrap()), Some(&Datum::Symbol(S_IF)));
    assert_eq!(t.len(), 13);
}

#[test]
fn integers_beyond_64_bits_are_refused() {
    for text in [
        "9223372036854775808",
        "-9223372036854775809",
        "18446744073709551616",
        "99999999999999999999999999999999",
        "(1 123456789012345678901234567890)",
        "(a 9223372036854775808",
        "-99999999999999999999",
    ] {
        let (r, t, v) = read(text);
        assert_eq!(v, Err(ParseError::BadNumber), "{}", text);
        assert_eq!(r.len(), 0);
        assert_eq!(t.len(), 13);
    }
    assert_eq!(shown("000000000000000000000000000000000001"), "1");
}

#[test]
fn lists_are_read_with_their_elements_in_order() {
    assert_eq!(shown("()"), "()");
    assert_eq!(shown("(a)"), "(a)");
    assert_eq!(shown("(add 2 3)"), "(add 2 3)");
    assert_eq!(shown("( a ( b  c )\n\t() d )"), "(a (b c) () d)");
    assert_eq!(shown("((((x))))"), "((((x))))");
    assert_eq!(shown("(()())"), "(() ())");
    assert_eq!(shown("(if #t 1 -2)"), "(if #t 1 -2)");
    assert_eq!(shown("; first\n(def x ; the name\n 5) ; done"), "(def x 5)");
    assert_eq!(shown("(a(b)c)"), "(a (b) c)");
    let (r, _, v) = read("(quote (def))");
    let v = v.unwrap();
    let (h, t) = match r.get(v) {
        Some(Datum::Pair(h, t)) => (*h, *t),
        other => panic!("{:?}", other),
    };
    assert_eq!(r.get(h), Some(&Datum::Symbol(S_QUOTE)));
    let inner = match r.get(t) {
        Some(Datum::Pair(x, n)) => {
            assert_eq!(r.get(*n), Some(&Datum::Nil));
            *x
        }
        other => panic!("{:?}", other),
    };
    match r.get(inner) {
        Some(Datum::Pair(x, n)) => {
            assert_eq!(r.get(*x), Some(&Datum::Symbol(S_DEF)));
            assert_eq!(r.get(*n), Some(&Datum::Nil));
        }
        other => panic!("{:?}", other),
    }
}

#[test]
fn symbols_are_interned_in_the_order_of_the_text() {
    let (r, t, v) = read("(b a b (c a))");
    assert_eq!(t.find("b"), Some(13));
    assert_eq!(t.find("a"), Some(14));
    assert_eq!(t.find("c"), Some(15));
    assert_eq!(t.len(), 16);
    assert_eq!(show(&r, &t, v.unwrap()), "(b a b (c a))");
}

#[test]
fn an_expression_takes_the_bytes_of_its_values_and_pairs() {
    let (r, _, v) = read("(add 2 3)");
    assert!(v.is_ok());
    assert_eq!(r.used(), 12 + 16 + 16 + 8 + 3 * 24);
    assert_eq!(r.len(), 7);
    let (r, _, _) = read("()");
    assert_eq!(r.used(), 8);
    let (r, _, _) = read("(() (#t))");
    assert_eq!(r.used(), 8 + (8 + 8 + 24) + 8 + 2 * 24);
    let (r, _, _) = read("x");
    assert_eq!(r.used(), 12);
}

#[test]
fn a_text_must_hold_exactly_one_expression() {
    let cases = [
        ("", ParseError::Empty),
        ("   \n\t", ParseError::Empty),
        ("; nothing here", ParseError::Empty),
        (")", ParseError::UnexpectedClose),
        (" ) (", ParseError::UnexpectedClose),
        ("(", ParseError::Unclosed),
        ("(a", ParseError::Unclosed),
        ("(a (b)", ParseError::Unclosed),
        ("((", ParseError::Unclosed),
        ("(a ; )", ParseError::Unclosed),
        ("a b", ParseError::Trailing),
        ("(a) b", ParseError::Trailing),
        ("(a))", ParseError::Trailing),
        ("() ()", ParseError::Trailing),
        ("1 (", ParseError::Trailing),
        ("a 99999999999999999999", ParseError::Trailing),
        ("99999999999999999999 a", ParseError::BadNumber),
        ("(a) 99999999999999999999", ParseError::Trailing),
        ("(a \u{e9})", ParseError::NotAscii),
        ("\u{3bb}", ParseError::NotAscii),
        ("; caf\u{e9}\n1", ParseError::NotAscii),
    ];
    for (text, want) in cases {
        let (r, t, v) = read(text);
        assert_eq!(v, Err(want), "{:?}", text);
        assert_eq!(r.used(), 0);
        assert_eq!(r.len(), 0);
        assert_eq!(t.len(), 13);
    }
}

#[test]
fn an_expression_that_does_not_fit_changes_nothing() {
    let text = "(add (mul 2 3) 4)";
    let need = 12 + (12 + 16 + 16 + 8 + 72) + 16 + 8 + 72;
    let mut t = SymbolTable::new();
    let mut small = Region::acquire(need - 1);
    assert_eq!(parse(&mut small, &mut t, text), Err(ParseError::RegionExhausted));
    assert_eq!(small.used(), 0);
    assert_eq!(t.len(), 13);
    assert_eq!(t.find("add"), None);
    let mut exact = Region::acquire(need);
    let v = parse(&mut exact, &mut t, text).unwrap();
    assert_eq!(exact.used(), need);
    assert_eq!(show(&exact, &t, v), "(add (mul 2 3) 4)");
    assert_eq!(parse(&mut exact, &mut t, "()"), Err(ParseError::RegionExhausted));
    assert_eq!(parse(&mut exact, &mut t, "("), Err(ParseError::Unclosed));
    let mut offset = Region::acquire(need + 20);
    let first = offset.allocate(Datum::I64(0)).unwrap();
    let v = parse(&mut offset, &mut t, text).unwrap();
    assert_eq!(offset.used(), need + 16);
    assert_eq!(offset.get(first), Some(&Datum::I64(0)));
    assert_eq!(show(&offset, &t, v), "(add (mul 2 3) 4)");
    assert_eq!(t.len(), 15);
}

#[test]
fn what_is_read_can_be_evaluated() {
    let mut r = Region::acquire(1 << 16);
    let mut t = SymbolTable::new();
    let mut b = Bridge::new();
    let env = create_frame(&mut r, 16).unwrap();
    let sig = vec![Shape::typed(Cfg::B8, Kind::I64), Shape::typed(Cfg::B8, Kind::I64)];
    b.register(&mut r, &mut t, env, "add", sig).unwrap();
    let texts = [
        ("(add 2 3)", 5, 5),
        ("(add (add 1 2) (add 3 4))", 10, 15),
        ("(if (add 0 0) (add 1 1) 0)", 2, 12),
        ("(if () 1 (add 20 22))", 42, 8),
        ("(if #f 1 -1)", -1, 4),
        ("(def twice (fn (x) (add x x)))", 0, 3),
        ("(twice 21)", 42, 9),
        ("(twice (twice (twice 1)))", 8, 27),
        ("((fn (f x) (f (f x))) twice 5)", 20, 24),
        ("(quote 7)", 7, 1),
        ("(do (def n 4) (twice n))", 8, 1 + (1 + 3) + 1 + 9),
        ("-9", -9, 1),
    ];
    for (text, want, steps) in texts {
        let expr = parse(&mut r, &mut t, text).unwrap();
        let mut stack = EvalStack::new(64);
        stack.start(env, expr).unwrap();
        let mut n = 0;
        while !stack.is_empty() {
            n += 1;
            if let Step::Call(p, args) = stack.step(&mut r, &b) {
                assert_eq!(p, 0);
                let mut sum = 0;
                for a in &args {
                    match r.get(*a) {
                        Some(Datum::I64(x)) => sum += *x,
                        other => panic!("{:?}", other),
                    }
                }
                let v = r.allocate(Datum::I64(sum)).unwrap();
                stack.resume(&r, v).unwrap();
            }
        }
        match stack.result() {
            Slot::Done(v) => match r.get(v) {
                Some(Datum::I64(x)) => assert_eq!(*x, want, "{}", text),
                Some(Datum::Lambda(_, _, e)) => assert_eq!(*e, env),
                other => panic!("{}: {:?}", text, other),
            },
            other => panic!("{}: {:?}", text, other),
        }
        assert_eq!(n, steps, "{}", text);
    }
}

#[test]
fn a_long_list_is_read_without_deep_recursion() {
    let n = 200_000;
    let mut text = String::from("(");
    for _ in 0..n {
        text.push_str("7 ");
    }
    text.push(')');
    let mut r = Region::acquire(64 << 20);
    let mut t = SymbolTable::new();
    let mut v = parse(&mut r, &mut t, &text).unwrap();
    assert_eq!(r.used(), 8 + n * (16 + 24));
    let mut count = 0;
    while let Some(Datum::Pair(h, rest)) = r.get(v) {
        assert_eq!(r.get(*h), Some(&Datum::I64(7)));
        count += 1;
        v = *rest;
    }
    assert_eq!(count, n);
    let deep = "(".repeat(50_000) + &")".repeat(50_000);
    let v = parse(&mut r, &mut t, &deep).unwrap();
    assert!(matches!(r.get(v), Some(Datum::Pair(_, _))));
}
