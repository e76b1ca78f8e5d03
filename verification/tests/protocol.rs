//! Scenario tests for the dispatch protocol: the two exported functions,
//! unknown-name dispatch, determinism and isolation.

use debugger::guest::{handle_json, power_of, split_str, Subphrase, TrapError};
use debugger::host::{CallError, HandleFactory};

/// The smallest guest module the factory accepts: a well-formed container
/// whose type, function and export sections expose a `handle-json` function
/// of the expected lowered type.
fn minimal_module() -> Vec<u8> {
    let mut m = vec![0u8, 0x61, 0x73, 0x6d, 1, 0, 0, 0];
    // type section: one function type (i32, i32, i32, i32) -> i32
    m.extend_from_slice(&[1, 9, 1, 0x60, 4, 0x7F, 0x7F, 0x7F, 0x7F, 1, 0x7F]);
    // function section: one module-own function of type 0
    m.extend_from_slice(&[3, 2, 1, 0]);
    // export section: that function, exported as the dispatch entry
    m.extend_from_slice(&[7, 15, 1, 11]);
    m.extend_from_slice(b"handle-json");
    m.extend_from_slice(&[0, 0]);
    m
}

#[test]
fn power_of_two_to_ten() {
    assert_eq!(power_of(2, 10), 1024);
}

#[test]
fn power_of_zero_exponent() {
    assert_eq!(power_of(7, 0), 1);
}

#[test]
fn power_of_negative_exponent_is_one() {
    assert_eq!(power_of(5, -3), 1);
}

#[test]
fn power_of_wraps_on_overflow() {
    assert_eq!(power_of(2, 31), i32::MIN);
    assert_eq!(power_of(2, 32), 0);
}

#[test]
fn dispatch_power_scenario() {
    let r = handle_json(b"power_of", b"[2, 10]");
    assert_eq!(r.unwrap(), b"[1024]".to_vec());
}

#[test]
fn dispatch_split_scenario() {
    let r = handle_json(b"split_str", br#"["a,b,c", ","]"#);
    let expected = br#"[[{"str":"a","idx":0},{"str":"b","idx":2},{"str":"c","idx":4}]]"#;
    assert_eq!(r.unwrap(), expected.to_vec());
}

#[test]
fn dispatch_malformed_payload_traps() {
    // a string where an i32 is declared: a type mismatch is fatal, not coerced
    let r = handle_json(b"power_of", br#"["not-an-int", 10]"#);
    assert_eq!(r.unwrap_err(), TrapError::DecodeFailure);
}

#[test]
fn dispatch_wrong_arity_traps() {
    assert_eq!(handle_json(b"power_of", b"[2]").unwrap_err(), TrapError::DecodeFailure);
    assert_eq!(handle_json(b"power_of", b"[2, 10, 3]").unwrap_err(), TrapError::DecodeFailure);
}

#[test]
fn dispatch_out_of_range_int_traps() {
    // 2^31 does not fit the declared i32 parameter
    assert_eq!(handle_json(b"power_of", b"[2147483648, 1]").unwrap_err(), TrapError::DecodeFailure);
}

#[test]
fn dispatch_unknown_name_traps() {
    assert_eq!(handle_json(b"nonexistent", b"[2, 10]").unwrap_err(), TrapError::UnknownName);
    assert_eq!(handle_json(b"", b"[]").unwrap_err(), TrapError::UnknownName);
}

#[test]
fn dispatch_unparsable_payload_traps() {
    assert_eq!(handle_json(b"power_of", b"2, 10").unwrap_err(), TrapError::DecodeFailure);
    assert_eq!(handle_json(b"power_of", b"").unwrap_err(), TrapError::DecodeFailure);
}

#[test]
fn split_str_plain() {
    let pieces = split_str(b"a,b,c", b",");
    assert_eq!(
        pieces,
        vec![
            Subphrase { str: b"a".to_vec(), idx: 0 },
            Subphrase { str: b"b".to_vec(), idx: 2 },
            Subphrase { str: b"c".to_vec(), idx: 4 },
        ]
    );
}

#[test]
fn split_str_no_match_returns_whole_phrase() {
    let pieces = split_str(b"abc", b";");
    assert_eq!(pieces, vec![Subphrase { str: b"abc".to_vec(), idx: 0 }]);
}

#[test]
fn split_str_delimiters_at_both_ends() {
    let pieces = split_str(b",a,", b",");
    assert_eq!(
        pieces,
        vec![
            Subphrase { str: b"".to_vec(), idx: 0 },
            Subphrase { str: b"a".to_vec(), idx: 1 },
            Subphrase { str: b"".to_vec(), idx: 3 },
        ]
    );
}

#[test]
fn split_str_multibyte_delimiter() {
    let pieces = split_str(b"a--b--c", b"--");
    assert_eq!(
        pieces,
        vec![
            Subphrase { str: b"a".to_vec(), idx: 0 },
            Subphrase { str: b"b".to_vec(), idx: 3 },
            Subphrase { str: b"c".to_vec(), idx: 6 },
        ]
    );
}

#[test]
fn split_str_empty_delimiter_splits_characters() {
    let pieces = split_str(b"ab", b"");
    assert_eq!(
        pieces,
        vec![
            Subphrase { str: b"".to_vec(), idx: 0 },
            Subphrase { str: b"a".to_vec(), idx: 0 },
            Subphrase { str: b"b".to_vec(), idx: 1 },
            Subphrase { str: b"".to_vec(), idx: 2 },
        ]
    );
}

#[test]
fn split_str_empty_phrase() {
    let pieces = split_str(b"", b",");
    assert_eq!(pieces, vec![Subphrase { str: b"".to_vec(), idx: 0 }]);
}

#[test]
fn handler_power_scenario() {
    let factory = HandleFactory::new(minimal_module()).unwrap();
    let mut handler = factory.make_handler().unwrap();
    let out = handler.handle_json("power_of".to_string(), b"[2, 10]".to_vec());
    assert_eq!(out.unwrap(), b"[1024]".to_vec());
}

#[test]
fn handler_split_scenario() {
    let factory = HandleFactory::new(minimal_module()).unwrap();
    let mut handler = factory.make_handler().unwrap();
    let out = handler.handle_json("split_str".to_string(), br#"["a,b,c", ","]"#.to_vec());
    let expected = br#"[[{"str":"a","idx":0},{"str":"b","idx":2},{"str":"c","idx":4}]]"#;
    assert_eq!(out.unwrap(), expected.to_vec());
}

#[test]
fn handler_unknown_name_traps() {
    let factory = HandleFactory::new(minimal_module()).unwrap();
    let mut handler = factory.make_handler().unwrap();
    let out = handler.handle_json("nonexistent".to_string(), b"[2, 10]".to_vec());
    assert_eq!(out.unwrap_err(), CallError::Trap(TrapError::UnknownName));
}

#[test]
fn handler_is_deterministic() {
    // identical (name, payload) on repeated invocation: byte-identical output
    let factory = HandleFactory::new(minimal_module()).unwrap();
    let mut handler = factory.make_handler().unwrap();
    let a = handler.handle_json("power_of".to_string(), b"[3, 4]".to_vec()).unwrap();
    let b = handler.handle_json("power_of".to_string(), b"[3, 4]".to_vec()).unwrap();
    assert_eq!(a, b);
    assert_eq!(a, b"[81]".to_vec());
}

#[test]
fn handler_calls_are_isolated() {
    // sequential calls with different inputs never observe each other
    let factory = HandleFactory::new(minimal_module()).unwrap();
    let mut h1 = factory.make_handler().unwrap();
    let first = h1.handle_json("power_of".to_string(), b"[2, 10]".to_vec()).unwrap();
    let second = h1.handle_json("power_of".to_string(), b"[3, 3]".to_vec()).unwrap();
    assert_eq!(first, b"[1024]".to_vec());
    assert_eq!(second, b"[27]".to_vec());
    // a fresh handler sees exactly what the first call saw
    let mut h2 = factory.make_handler().unwrap();
    let again = h2.handle_json("power_of".to_string(), b"[2, 10]".to_vec()).unwrap();
    assert_eq!(again, first);
}
