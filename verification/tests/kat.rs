use mqom::kat::{
    DecimalError, DecimalField, KatCase, KatDrbg, KatError, KatField, append_decimal, append_hex,
    append_hex_line, check_case, count_case_lines, decode_fixed_hex, decode_hex, decode_nibble, parse_decimal,
    parse_response, reject_targeted_mutations, trim_range, verify_response,
};
use mqom::mqom2_l1_gf16_short_r5::SigningKey;

fn hex(bytes: &[u8]) -> Vec<u8> {
    let mut output = Vec::new();
    append_hex(&mut output, bytes);
    output
}

#[test]
fn drbg_reproduces_the_first_kat_seed() {
    let entropy: [u8; 48] = core::array::from_fn(|index| u8::try_from(index).unwrap());
    let mut drbg = KatDrbg::new(&entropy);
    let mut seed = [0u8; 48];
    drbg.generate(&mut seed);
    assert_eq!(
        hex(&seed),
        b"061550234D158C5EC95595FE04EF7A25767F2E24CC2BC479D09D86DC9ABCFDE7056A8C266F9EF97ED08541DBD2E1FFA1".to_vec()
    );
}

#[test]
fn drbg_outputs_are_keystream_prefixes() {
    let seed = [7u8; 48];
    let mut first = KatDrbg::new(&seed);
    let mut second = KatDrbg::new(&seed);
    let mut short = [0u8; 20];
    let mut long = [0u8; 32];
    first.generate(&mut short);
    second.generate(&mut long);
    assert_eq!(short, long[..20]);
    let mut after_first = [0u8; 16];
    let mut after_second = [0u8; 16];
    first.generate(&mut after_first);
    second.generate(&mut after_second);
    assert_eq!(after_first, after_second);
    assert_ne!(after_first, long[..16]);
}

#[test]
fn hex_fields_decode_and_report_errors() {
    assert_eq!(decode_hex(b"0aFf").unwrap(), vec![0x0a, 0xff]);
    assert_eq!(decode_hex(b"").unwrap(), Vec::<u8>::new());
    assert_eq!(decode_hex(b"abc"), Err(KatError::OddHexLength));
    assert_eq!(decode_hex(b"0g"), Err(KatError::InvalidHexDigit(b'g')));
    assert_eq!(decode_hex(b"zg"), Err(KatError::InvalidHexDigit(b'z')));
    assert_eq!(decode_nibble(b'F'), Ok(15));
    assert_eq!(decode_nibble(b'G'), Err(KatError::InvalidHexDigit(b'G')));
    assert_eq!(decode_fixed_hex::<2>(b"abcd"), Ok([0xab, 0xcd]));
    assert_eq!(
        decode_fixed_hex::<3>(b"abcd"),
        Err(KatError::WrongDecodedLength { expected: 3, found: 2 })
    );
    let bytes = [0x00, 0x9f, 0xa0, 0xff];
    assert_eq!(hex(&bytes), b"009FA0FF".to_vec());
    assert_eq!(decode_hex(&hex(&bytes)).unwrap(), bytes.to_vec());
    let mut line = Vec::new();
    append_hex_line(&mut line, b"pk", &[0x12]);
    assert_eq!(line, b"pk = 12\n".to_vec());
}

#[test]
fn decimal_fields_parse_like_str_parse() {
    assert_eq!(parse_decimal(b"42"), Ok(42));
    assert_eq!(parse_decimal(b"+7"), Ok(7));
    assert_eq!(parse_decimal(b"007"), Ok(7));
    assert_eq!(parse_decimal(b""), Err(DecimalError::Empty));
    assert_eq!(parse_decimal(b"+"), Err(DecimalError::InvalidDigit));
    assert_eq!(parse_decimal(b"-1"), Err(DecimalError::InvalidDigit));
    assert_eq!(parse_decimal(b"1 "), Err(DecimalError::InvalidDigit));
    assert_eq!(
        parse_decimal(b"99999999999999999999999999"),
        Err(DecimalError::Overflow)
    );
    for value in [0usize, 9, 10, 12345, usize::MAX] {
        let mut text = Vec::new();
        append_decimal(&mut text, value);
        assert_eq!(text, value.to_string().into_bytes());
        assert_eq!(parse_decimal(&text), Ok(value));
    }
}

#[test]
fn lines_are_trimmed_of_unicode_white_space() {
    let line = " \t\u{a0}x y\u{3000}\r".as_bytes();
    let (start, end) = trim_range(line, 0, line.len());
    assert_eq!(&line[start..end], b"x y");
    let blank = "\u{2028} ".as_bytes();
    let (start, end) = trim_range(blank, 0, blank.len());
    assert_eq!(start, end);
}

#[test]
fn responses_split_into_cases() {
    let text = b"# comment\ncount = 0\nseed = 00\nfoo = bar\n\n  \ncount = 1\r\nmsg = AB\n";
    let (cases, error) = parse_response(text);
    assert!(error.is_none());
    assert_eq!(cases.len(), 2);
    assert_eq!(cases[0].count, Some(0));
    assert_eq!(cases[0].seed.as_deref(), Some(&b"00"[..]));
    assert_eq!(cases[1].count, Some(1));
    assert_eq!(cases[1].message.as_deref(), Some(&b"AB"[..]));

    let (cases, error) = parse_response(b"count = 3\n\nmalformed\ncount = 4\n");
    assert_eq!(cases.len(), 1);
    assert_eq!(error, Some(KatError::MalformedLine { start: 11, end: 20 }));

    let (cases, error) = parse_response(b"count = x\n");
    assert!(cases.is_empty());
    assert_eq!(
        error,
        Some(KatError::InvalidDecimal {
            name: DecimalField::Count,
            start: 8,
            end: 9,
            kind: DecimalError::InvalidDigit,
        })
    );
}

fn owned(bytes: &[u8]) -> Option<Vec<u8>> {
    Some(bytes.to_vec())
}

fn reproduced_case(count: usize, seed: &[u8; 48], message: &[u8]) -> (KatCase, Vec<u8>) {
    let mut drbg = KatDrbg::new(seed);
    let mut keygen_seed = [0u8; 32];
    drbg.generate(&mut keygen_seed);
    let key = SigningKey::from_seed(&keygen_seed).unwrap();
    let mut master_seed = [0u8; 16];
    drbg.generate(&mut master_seed);
    let mut salt = [0u8; 16];
    drbg.generate(&mut salt);
    let signature = key.sign_with_randomness(&master_seed, &salt, message).unwrap();
    let mut signed_message = message.to_vec();
    signed_message.extend_from_slice(signature.as_slice());
    let case = KatCase {
        count: Some(count),
        seed: owned(&hex(seed)),
        message_len: Some(message.len()),
        message: owned(&hex(message)),
        public_key: owned(&hex(key.verifying_key().as_slice())),
        secret_key: owned(&hex(key.to_bytes().as_slice())),
        signed_message_len: Some(signed_message.len()),
        signed_message: owned(&hex(&signed_message)),
    };
    (case, signature.as_slice().to_vec())
}

#[test]
fn reproduced_cases_pass_and_tampered_ones_fail() {
    let seed = [0x5au8; 48];
    let message = b"known answer";
    let (case, signature) = reproduced_case(3, &seed, message);
    let mut response = Vec::new();
    assert_eq!(check_case(&case, true, &mut response), Ok(()));
    let text = String::from_utf8(response).unwrap();
    assert!(text.starts_with("count = 3\nseed = 5A5A"));
    assert!(text.contains(&format!("mlen = {}\n", message.len())));
    assert!(text.contains(&format!("smlen = {}\n", message.len() + signature.len())));
    assert!(text.ends_with("\n\n"));

    let mut wrong_key = case.public_key.clone().unwrap();
    wrong_key[0] = if wrong_key[0] == b'0' { b'1' } else { b'0' };
    let tampered = KatCase { public_key: Some(wrong_key), ..reproduced_case(3, &seed, message).0 };
    let mut response = Vec::new();
    assert_eq!(check_case(&tampered, false, &mut response), Err(KatError::KeyGenerationDiffers(3)));
    assert!(response.is_empty());

    let missing = KatCase { message_len: None, ..reproduced_case(4, &seed, message).0 };
    assert_eq!(
        check_case(&missing, false, &mut Vec::new()),
        Err(KatError::MissingField { count: 4, field: KatField::MessageLength })
    );
    let inconsistent = KatCase { message_len: Some(1), ..reproduced_case(5, &seed, message).0 };
    assert_eq!(
        check_case(&inconsistent, false, &mut Vec::new()),
        Err(KatError::InconsistentLengths(5))
    );

    let public_key = mqom::kat::decode_hex(case.public_key.as_deref().unwrap()).unwrap();
    assert_eq!(reject_targeted_mutations(3, &public_key, message, &signature), Ok(()));
    assert_eq!(
        reject_targeted_mutations(3, &public_key, b"", &signature),
        Err(KatError::EmptyMessage(3))
    );
}

#[test]
fn responses_need_one_hundred_cases() {
    assert_eq!(verify_response(b"# nothing\n"), Err(KatError::CaseCount(0)));
    assert_eq!(
        verify_response(b"count = 0\nmlen = 1\n"),
        Err(KatError::MissingField { count: 0, field: KatField::Message })
    );
    assert_eq!(verify_response(b"oops\n"), Err(KatError::MalformedLine { start: 0, end: 4 }));
}

#[test]
fn case_lines_are_counted_as_lines_starting_with_count() {
    let contents = b"# header\ncount = 0\r\nseed = 00\n\ncount = 1\n count = 2\ncount =3\ncount = ";
    assert_eq!(count_case_lines(contents), 3);
    let text = core::str::from_utf8(contents).unwrap();
    let expected = text.lines().filter(|line| line.starts_with("count = ")).count();
    assert_eq!(count_case_lines(contents), expected);
    assert_eq!(count_case_lines(b""), 0);
    assert_eq!(count_case_lines(b"count = 7"), 1);
}
