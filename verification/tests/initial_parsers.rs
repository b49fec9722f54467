use cfg_ssa::ast::ComponentCreationMode;
use cfg_ssa::initial_parsers::{
    parse_component_mode, parse_components, parse_components_heap, parse_inputs, parse_prime,
    parse_signal_memory, parse_start, parse_witness, ParseError,
};

#[test]
fn test_parse_prime() {
    let input = "%%prime 123456789";
    let result = parse_prime(input);
    assert!(result.is_ok());
    let (remaining, prime) = result.unwrap();
    assert_eq!(remaining, "");
    let expected = num_bigint::BigInt::parse_bytes(b"123456789", 10).unwrap();
    let (sign, digits) = expected.to_u32_digits();
    assert_eq!(prime.negative, sign == num_bigint::Sign::Minus);
    assert_eq!(prime.limbs, digits);
}

#[test]
fn test_parse_component_mode() {
    let input = "implicit";
    let result = parse_component_mode(input);
    assert!(result.is_ok());
    let (remaining, mode) = result.unwrap();
    assert_eq!(remaining, "");
    assert_eq!(mode, ComponentCreationMode::Implicit);

    let input = "explicit";
    let result = parse_component_mode(input);
    assert!(result.is_ok());
    let (remaining, mode) = result.unwrap();
    assert_eq!(remaining, "");
    assert_eq!(mode, ComponentCreationMode::Explicit);
}

#[test]
fn test_parse_signal_memory() {
    let input = "%%signals 1024";
    let result = parse_signal_memory(input);
    assert!(result.is_ok());
    let (remaining, signals) = result.unwrap();
    assert_eq!(remaining, "");
    assert_eq!(signals, 1024);
}

#[test]
fn test_parse_components_heap() {
    let input = "%%components_heap 2048";
    let result = parse_components_heap(input);
    assert!(result.is_ok());
    let (remaining, components_heap) = result.unwrap();
    assert_eq!(remaining, "");
    assert_eq!(components_heap, 2048);
}

#[test]
fn test_parse_start() {
    let input = "%%start main";
    let result = parse_start(input);
    println!("{:?}", result);
    assert!(result.is_ok());
    let (remaining, start) = result.unwrap();
    assert_eq!(remaining, "");
    assert_eq!(start, "main".to_string());
}

#[test]
fn test_parse_components() {
    let input = "%%components implicit";
    let result = parse_components(input);
    assert!(result.is_ok());
    let (remaining, mode) = result.unwrap();
    assert_eq!(remaining, "");
    assert_eq!(mode, ComponentCreationMode::Implicit);

    let input = "%%components explicit";
    let result = parse_components(input);
    assert!(result.is_ok());
    let (remaining, mode) = result.unwrap();
    assert_eq!(remaining, "");
    assert_eq!(mode, ComponentCreationMode::Explicit);
}

#[test]
fn test_parse_witness() {
    let input = "%%witness 1 2 3 4 53";
    let result = parse_witness(input);
    assert!(result.is_ok());
    let (remaining, witness) = result.unwrap();
    assert_eq!(remaining, "");
    assert_eq!(witness, vec![1, 2, 3, 4, 53]);
}

#[test]
fn parse_prime_keeps_what_follows_and_reads_big_numbers() {
    let (rest, prime) = parse_prime("%%prime \t 21888242871839275222246405745257275088548364400416034343698204186575808495617\n%%signals 4").unwrap();
    assert_eq!(rest, "\n%%signals 4");
    let expected = num_bigint::BigInt::parse_bytes(
        b"21888242871839275222246405745257275088548364400416034343698204186575808495617",
        10,
    )
    .unwrap();
    assert_eq!(prime.limbs, expected.to_u32_digits().1);
    assert!(!prime.negative);
}

#[test]
fn header_parsers_refuse_what_does_not_match() {
    assert!(parse_prime("%%prime123").is_err());
    assert!(parse_prime("%%prime x").is_err());
    assert!(parse_prime("%prime 1").is_err());
    assert_eq!(parse_component_mode("implied"), Err(ParseError));
    assert_eq!(parse_signal_memory("%%signals -1"), Err(ParseError));
    assert_eq!(parse_signal_memory("%%signals 99999999999999999999999"), Err(ParseError));
    assert_eq!(parse_start("%%start "), Err(ParseError));
    assert_eq!(parse_components("%%components both"), Err(ParseError));
    assert_eq!(parse_witness("%%witness "), Err(ParseError));
}

#[test]
fn witness_stops_before_what_is_not_a_number() {
    assert_eq!(parse_witness("%%witness 7  8 x"), Ok((" x", vec![7, 8])));
    assert_eq!(parse_witness("%%witness 7\n"), Ok(("\n", vec![7])));
}

#[test]
fn parse_start_reads_a_name_and_parse_heap_keeps_the_rest() {
    assert_eq!(parse_start("%%start main_0 rest"), Ok((" rest", "main_0".to_string())));
    assert_eq!(parse_components_heap("%%components_heap 12\n"), Ok(("\n", 12)));
    assert_eq!(parse_components("%%components explicit!"), Ok(("!", ComponentCreationMode::Explicit)));
}

#[test]
fn parse_inputs_reads_the_counted_lines() {
    let (rest, lines) = parse_inputs("%%input 2\nmain.a\r\nmain.b\nrest").unwrap();
    assert_eq!(rest, "rest");
    assert_eq!(lines, vec!["main.a".to_string(), "main.b".to_string()]);
    assert_eq!(parse_inputs("%%input 2\nonly one\n"), Err(ParseError));
    assert_eq!(parse_inputs("%%input 1 x\n"), Err(ParseError));
    assert_eq!(parse_inputs("%%input 1\nbad\rline\n"), Err(ParseError));
    assert_eq!(parse_inputs("%%input 0\r\nrest"), Ok(("rest", vec![])));
}
