use container_params::address::Address;
use container_params::error::DecodeError;
use container_params::field::Field;
use container_params::params::ContainerParams;
use solana_pubkey::Pubkey;
use std::str::FromStr;

const TOKEN_PROGRAM: &str = "TokenkegQfeZyiNwAJbNbGKPFXCWuBvf9Ss623VQ5DA";

const TOKEN_PROGRAM_BYTES: [u8; 32] = [
    6, 221, 246, 225, 215, 101, 161, 147, 217, 203, 225, 70, 206, 235, 121, 172, 28, 180, 133,
    237, 95, 91, 55, 145, 58, 140, 245, 133, 126, 255, 0, 169,
];

const OTHER: &str = "2gPihUTjt3FJqf1VpidgrY5cZ6PuyMccGVwQHRfjMPZG";

const OTHER_BYTES: [u8; 32] = [
    24, 243, 6, 223, 230, 153, 210, 8, 92, 137, 123, 67, 164, 197, 79, 196, 125, 43, 183, 85,
    103, 91, 232, 167, 73, 131, 104, 131, 0, 101, 214, 231,
];

const ALL_ZERO: &str = "11111111111111111111111111111111";

fn token_id() -> Pubkey {
    Pubkey::from_str(TOKEN_PROGRAM).unwrap()
}

fn token() -> Address {
    Address::new(TOKEN_PROGRAM_BYTES)
}

fn decode_str(line: &str) -> Result<ContainerParams, DecodeError> {
    ContainerParams::decode(&line.as_bytes().to_vec())
}

fn full_line() -> String {
    format!(
        "PID={0},LOWER_BOUND=0,UPPER_BOUND=18000,USER={0},REALM_PDA={0},USER_ACCOUNT_PDA={0},SPACESHIP_PDA={0}",
        TOKEN_PROGRAM
    )
}

fn full_params() -> ContainerParams {
    ContainerParams {
        program_id: token(),
        lower_bound: 0,
        upper_bound: 18_000,
        user: token(),
        realm_pda: token(),
        user_account_pda: token(),
        spaceship_pda: token(),
    }
}

#[test]
fn test_params_decode() {
    let request_params_string = format!(
        "PID={},LOWER_BOUND={},UPPER_BOUND={},USER={},REALM_PDA={},USER_ACCOUNT_PDA={},SPACESHIP_PDA={}",
        token_id(),
        0,
        18_000,
        token_id(),
        token_id(),
        token_id(),
        token_id()
    );
    let request_params_bytes = request_params_string.into_bytes();

    let params = ContainerParams::decode(&request_params_bytes).unwrap();

    assert_eq!(params.program_id, Address::new(token_id().to_bytes()));
    assert_eq!(params.lower_bound, 0);
    assert_eq!(params.upper_bound, 18_000);
    assert_eq!(params.user, Address::new(token_id().to_bytes()));
    assert_eq!(params.realm_pda, Address::new(token_id().to_bytes()));
    assert_eq!(params.user_account_pda, Address::new(token_id().to_bytes()));
    assert_eq!(params.spaceship_pda, Address::new(token_id().to_bytes()));
}

#[test]
fn happy_path_gives_every_field() {
    assert_eq!(decode_str(&full_line()), Ok(full_params()));
}

#[test]
fn address_text_gives_its_bytes() {
    let line = format!(
        "PID={},UPPER_BOUND=1,USER={},REALM_PDA={},USER_ACCOUNT_PDA={},SPACESHIP_PDA={}",
        TOKEN_PROGRAM, OTHER, TOKEN_PROGRAM, OTHER, TOKEN_PROGRAM
    );
    let params = decode_str(&line).unwrap();
    assert_eq!(params.program_id.to_bytes(), TOKEN_PROGRAM_BYTES);
    assert_eq!(params.user.to_bytes(), OTHER_BYTES);
    assert_eq!(params.realm_pda.to_bytes(), TOKEN_PROGRAM_BYTES);
    assert_eq!(params.user_account_pda.to_bytes(), OTHER_BYTES);
    assert_eq!(params.spaceship_pda.to_bytes(), TOKEN_PROGRAM_BYTES);
    assert_eq!(params.lower_bound, 0);
    assert_eq!(params.upper_bound, 1);
}

#[test]
fn round_trip_through_the_text_of_each_value() {
    let mut seed = [0u8; 32];
    for k in 0..5u8 {
        let mut addresses = Vec::new();
        for j in 0..5u8 {
            for (i, byte) in seed.iter_mut().enumerate() {
                *byte = (i as u8).wrapping_mul(37).wrapping_add(k.wrapping_mul(91)).wrapping_add(j);
            }
            seed[0] = if k == 0 { 0 } else { seed[0] };
            seed[31] = 1 + j;
            addresses.push(Address::new(seed));
        }
        let expected = ContainerParams {
            program_id: addresses[0],
            lower_bound: u32::MAX - k as u32,
            upper_bound: 1 + k as u32 * 1000,
            user: addresses[1],
            realm_pda: addresses[2],
            user_account_pda: addresses[3],
            spaceship_pda: addresses[4],
        };
        let line = format!(
            "PID={},LOWER_BOUND={},UPPER_BOUND={},USER={},REALM_PDA={},USER_ACCOUNT_PDA={},SPACESHIP_PDA={}",
            Pubkey::new_from_array(expected.program_id.to_bytes()),
            expected.lower_bound,
            expected.upper_bound,
            Pubkey::new_from_array(expected.user.to_bytes()),
            Pubkey::new_from_array(expected.realm_pda.to_bytes()),
            Pubkey::new_from_array(expected.user_account_pda.to_bytes()),
            Pubkey::new_from_array(expected.spaceship_pda.to_bytes()),
        );
        assert_eq!(decode_str(&line), Ok(expected));
    }
}

#[test]
fn order_of_segments_does_not_matter() {
    let line = format!(
        "SPACESHIP_PDA={0},UPPER_BOUND=18000,USER={0},PID={0},USER_ACCOUNT_PDA={0},LOWER_BOUND=0,REALM_PDA={0}",
        TOKEN_PROGRAM
    );
    assert_eq!(decode_str(&line), Ok(full_params()));
    assert_eq!(decode_str(&line), decode_str(&full_line()));
}

#[test]
fn order_does_not_matter_when_a_field_is_missing() {
    let a = format!("UPPER_BOUND=7,PID={0},REALM_PDA={0}", TOKEN_PROGRAM);
    let b = format!("REALM_PDA={0},UPPER_BOUND=7,PID={0}", TOKEN_PROGRAM);
    assert_eq!(decode_str(&a), Err(DecodeError::MissingOrDefaultField(Field::User)));
    assert_eq!(decode_str(&a), decode_str(&b));
}

#[test]
fn last_value_of_a_repeated_number_wins() {
    let line = format!("{},UPPER_BOUND=5,LOWER_BOUND=3,UPPER_BOUND=9", full_line());
    let params = decode_str(&line).unwrap();
    assert_eq!(params.upper_bound, 9);
    assert_eq!(params.lower_bound, 3);
}

#[test]
fn last_value_of_a_repeated_address_wins() {
    let line = format!("USER={},{},USER={}", TOKEN_PROGRAM, full_line(), OTHER);
    let params = decode_str(&line).unwrap();
    assert_eq!(params.user, Address::new(OTHER_BYTES));
    assert_eq!(params.program_id, token());
    let line = format!("USER={},{}", OTHER, full_line());
    assert_eq!(decode_str(&line).unwrap().user, token());
}

#[test]
fn last_value_wins_even_when_it_unsets_the_field() {
    let line = format!("{},UPPER_BOUND=0", full_line());
    assert_eq!(decode_str(&line), Err(DecodeError::MissingOrDefaultField(Field::UpperBound)));
    let line = format!("{},REALM_PDA={}", full_line(), ALL_ZERO);
    assert_eq!(decode_str(&line), Err(DecodeError::MissingOrDefaultField(Field::RealmPda)));
}

#[test]
fn unknown_key_is_ignored_anywhere() {
    let expected = Ok(full_params());
    assert_eq!(decode_str(&format!("FOO=bar,{}", full_line())), expected);
    assert_eq!(decode_str(&format!("{},FOO=bar", full_line())), expected);
    let middle = full_line().replace(",USER=", ",FOO=bar,USER=");
    assert_eq!(decode_str(&middle), expected);
    let many = full_line().replace(',', ",FOO=bar,");
    assert_eq!(decode_str(&many), expected);
}

#[test]
fn unknown_key_does_not_change_an_error() {
    let line = format!("PID={},FOO=bar,UPPER_BOUND=3", TOKEN_PROGRAM);
    assert_eq!(decode_str(&line), Err(DecodeError::MissingOrDefaultField(Field::User)));
    assert_eq!(decode_str("FOO=bar"), Err(DecodeError::MissingOrDefaultField(Field::ProgramId)));
}

#[test]
fn keys_are_matched_exactly() {
    let line = full_line().replace("PID=", "pid=");
    assert_eq!(decode_str(&line), Err(DecodeError::MissingOrDefaultField(Field::ProgramId)));
    let line = full_line().replace("PID=", " PID=");
    assert_eq!(decode_str(&line), Err(DecodeError::MissingOrDefaultField(Field::ProgramId)));
    let line = full_line().replace("USER=", "USER =");
    assert_eq!(decode_str(&line), Err(DecodeError::MissingOrDefaultField(Field::User)));
    let line = full_line().replace("REALM_PDA=", "REALM_PDAS=");
    assert_eq!(decode_str(&line), Err(DecodeError::MissingOrDefaultField(Field::RealmPda)));
}

#[test]
fn segment_without_equals_is_ignored() {
    let expected = Ok(full_params());
    assert_eq!(decode_str(&format!(",{}", full_line())), expected);
    assert_eq!(decode_str(&format!("{},", full_line())), expected);
    assert_eq!(decode_str(&format!("{},,,", full_line())), expected);
    assert_eq!(decode_str(&full_line().replace(',', ",,")), expected);
    assert_eq!(decode_str(&format!("token,{},PID", full_line())), expected);
    assert_eq!(decode_str(&full_line().replace(",USER=", ",UPPER_BOUND,USER=")), expected);
}

#[test]
fn empty_line_misses_the_program_id() {
    assert_eq!(decode_str(""), Err(DecodeError::MissingOrDefaultField(Field::ProgramId)));
    assert_eq!(decode_str(",,"), Err(DecodeError::MissingOrDefaultField(Field::ProgramId)));
}

#[test]
fn missing_pid_is_reported() {
    let line = format!(
        "LOWER_BOUND=0,UPPER_BOUND=18000,USER={0},REALM_PDA={0},USER_ACCOUNT_PDA={0},SPACESHIP_PDA={0}",
        TOKEN_PROGRAM
    );
    let error = decode_str(&line).unwrap_err();
    assert_eq!(error, DecodeError::MissingOrDefaultField(Field::ProgramId));
    assert_eq!(error.message(), "PID cannot be undefined");
}

#[test]
fn zero_upper_bound_is_reported() {
    let line = full_line().replace("UPPER_BOUND=18000", "UPPER_BOUND=0");
    let error = decode_str(&line).unwrap_err();
    assert_eq!(error, DecodeError::MissingOrDefaultField(Field::UpperBound));
    assert_eq!(error.message(), "UPPER_BOUND must be greater than 0");
}

#[test]
fn omitted_upper_bound_is_reported() {
    let line = full_line().replace(",UPPER_BOUND=18000", "");
    assert_eq!(decode_str(&line), Err(DecodeError::MissingOrDefaultField(Field::UpperBound)));
}

#[test]
fn missing_spaceship_is_reported() {
    let line = format!(
        "PID={0},LOWER_BOUND=0,UPPER_BOUND=18000,USER={0},REALM_PDA={0},USER_ACCOUNT_PDA={0}",
        TOKEN_PROGRAM
    );
    let error = decode_str(&line).unwrap_err();
    assert_eq!(error, DecodeError::MissingOrDefaultField(Field::SpaceshipPda));
    assert_eq!(error.message(), "SPACESHIP_PDA cannot be undefined");
}

#[test]
fn missing_fields_are_reported_in_a_fixed_order() {
    let t = TOKEN_PROGRAM;
    let missing = |line: String| decode_str(&line).unwrap_err();
    assert_eq!(
        missing(format!("SPACESHIP_PDA={t},USER_ACCOUNT_PDA={t},REALM_PDA={t},USER={t},UPPER_BOUND=1")),
        DecodeError::MissingOrDefaultField(Field::ProgramId)
    );
    assert_eq!(
        missing(format!("SPACESHIP_PDA={t},USER_ACCOUNT_PDA={t},REALM_PDA={t},USER={t},PID={t}")),
        DecodeError::MissingOrDefaultField(Field::UpperBound)
    );
    assert_eq!(
        missing(format!("PID={t},UPPER_BOUND=1")),
        DecodeError::MissingOrDefaultField(Field::User)
    );
    assert_eq!(
        missing(format!("PID={t},UPPER_BOUND=1,USER={t},SPACESHIP_PDA={t}")),
        DecodeError::MissingOrDefaultField(Field::RealmPda)
    );
    assert_eq!(
        missing(format!("PID={t},UPPER_BOUND=1,USER={t},REALM_PDA={t},SPACESHIP_PDA={t}")),
        DecodeError::MissingOrDefaultField(Field::UserAccountPda)
    );
    assert_eq!(
        missing(format!("PID={t}")),
        DecodeError::MissingOrDefaultField(Field::UpperBound)
    );
}

#[test]
fn lower_bound_is_not_required() {
    let line = full_line().replace("LOWER_BOUND=0,", "");
    assert_eq!(decode_str(&line), Ok(full_params()));
    let line = full_line().replace("LOWER_BOUND=0", "LOWER_BOUND=4294967295");
    assert_eq!(decode_str(&line).unwrap().lower_bound, u32::MAX);
}

#[test]
fn all_zero_address_counts_as_unset() {
    let line = full_line().replacen(TOKEN_PROGRAM, ALL_ZERO, 1);
    assert_eq!(decode_str(&line), Err(DecodeError::MissingOrDefaultField(Field::ProgramId)));
    let line = full_line().replace(&format!("USER={TOKEN_PROGRAM}"), &format!("USER={ALL_ZERO}"));
    assert_eq!(decode_str(&line), Err(DecodeError::MissingOrDefaultField(Field::User)));
}

#[test]
fn invalid_utf8_is_malformed_input() {
    let mut bytes = full_line().into_bytes();
    bytes.extend_from_slice(b",FOO=");
    bytes.push(0xff);
    let error = ContainerParams::decode(&bytes).unwrap_err();
    assert_eq!(error, DecodeError::MalformedInput);
    assert_eq!(error.message(), "parameters are not valid UTF-8");
    assert_eq!(ContainerParams::decode(&vec![0xc3]), Err(DecodeError::MalformedInput));
    assert_eq!(ContainerParams::decode(&vec![0x80, 0x2c]), Err(DecodeError::MalformedInput));
    assert_eq!(
        ContainerParams::decode(&vec![b'P', b'I', b'D', b'=', 0xed, 0xa0, 0x80]),
        Err(DecodeError::MalformedInput)
    );
}

#[test]
fn text_beyond_ascii_is_accepted_in_ignored_segments() {
    let line = format!("NAME=caf\u{e9},{},\u{4e2d}\u{6587}", full_line());
    assert_eq!(decode_str(&line), Ok(full_params()));
    let line = format!("PID=caf\u{e9},{}", full_line());
    assert_eq!(decode_str(&line), Err(DecodeError::MalformedField(Field::ProgramId)));
}

#[test]
fn malformed_address_is_reported() {
    let bad = [
        "",
        "1",
        "abc",
        "TokenkegQfeZyiNwAJbNbGKPFXCWuBvf9Ss623VQ5D",
        "TokenkegQfeZyiNwAJbNbGKPFXCWuBvf9Ss623VQ5DAA",
        "TokenkegQfeZyiNwAJbNbGKPFXCWuBvf9Ss623VQ5D0",
        "TokenkegQfeZyiNwAJbNbGKPFXCWuBvf9Ss623VQ5DO",
        "TokenkegQfeZyiNwAJbNbGKPFXCWuBvf9Ss623VQ5DI",
        "TokenkegQfeZyiNwAJbNbGKPFXCWuBvf9Ss623VQ5Dl",
        " TokenkegQfeZyiNwAJbNbGKPFXCWuBvf9Ss623VQ5DA",
        "TokenkegQfeZyiNwAJbNbGKPFXCWuBvf9Ss623VQ5DA ",
        "zzzzzzzzzzzzzzzzzzzzzzzzzzzzzzzzzzzzzzzzzzzz",
        "1111111111111111111111111111111",
        "111111111111111111111111111111111",
        "TokenkegQfeZyiNwAJbNbGKPFXCWuBvf9Ss623VQ5DATokenkegQfeZyiNwAJbNbGKPFXCWuBvf9Ss623VQ5DA",
    ];
    for text in bad {
        let line = full_line().replace(&format!("USER={TOKEN_PROGRAM}"), &format!("USER={text}"));
        assert_eq!(
            decode_str(&line),
            Err(DecodeError::MalformedField(Field::User)),
            "value {text:?}"
        );
    }
    let error = decode_str("SPACESHIP_PDA=?").unwrap_err();
    assert_eq!(error, DecodeError::MalformedField(Field::SpaceshipPda));
    assert_eq!(error.message(), "SPACESHIP_PDA is malformed");
}

#[test]
fn malformed_number_is_reported() {
    let bad = [
        "", "+", "-", "-1", "-0", "++1", "1+", " 1", "1 ", "1_000", "0x10", "1.0", "1e3", "abc",
        "4294967296", "99999999999999999999", "=1", "\u{662}",
    ];
    for text in bad {
        let line = full_line().replace("UPPER_BOUND=18000", &format!("UPPER_BOUND={text}"));
        assert_eq!(
            decode_str(&line),
            Err(DecodeError::MalformedField(Field::UpperBound)),
            "value {text:?}"
        );
        let line = full_line().replace("LOWER_BOUND=0", &format!("LOWER_BOUND={text}"));
        assert_eq!(
            decode_str(&line),
            Err(DecodeError::MalformedField(Field::LowerBound)),
            "value {text:?}"
        );
    }
}

#[test]
fn numbers_are_read_as_decimal() {
    let cases: [(&str, u32); 7] = [
        ("1", 1),
        ("18000", 18_000),
        ("+5", 5),
        ("007", 7),
        ("4294967295", u32::MAX),
        ("+4294967295", u32::MAX),
        ("0000000000000000000000042", 42),
    ];
    for (text, expected) in cases {
        let line = full_line().replace("UPPER_BOUND=18000", &format!("UPPER_BOUND={text}"));
        assert_eq!(decode_str(&line).unwrap().upper_bound, expected, "value {text:?}");
    }
}

#[test]
fn value_may_hold_equals() {
    let line = full_line().replace("UPPER_BOUND=18000", "UPPER_BOUND==18000");
    assert_eq!(decode_str(&line), Err(DecodeError::MalformedField(Field::UpperBound)));
    let line = full_line().replace("UPPER_BOUND=18000", "UPPER_BOUND=18=000");
    assert_eq!(decode_str(&line), Err(DecodeError::MalformedField(Field::UpperBound)));
    let line = format!("{},NOTE=a=b=c,=x,==", full_line());
    assert_eq!(decode_str(&line), Ok(full_params()));
    let line = format!("{},FOO=PID={}", full_line(), OTHER);
    assert_eq!(decode_str(&line), Ok(full_params()));
}

#[test]
fn malformed_value_is_reported_before_a_missing_field() {
    assert_eq!(
        decode_str("USER_ACCOUNT_PDA=oops"),
        Err(DecodeError::MalformedField(Field::UserAccountPda))
    );
    assert_eq!(decode_str("LOWER_BOUND=x"), Err(DecodeError::MalformedField(Field::LowerBound)));
}

#[test]
fn earliest_malformed_value_is_reported() {
    let line = format!("REALM_PDA=bad,{},UPPER_BOUND=x", full_line());
    assert_eq!(decode_str(&line), Err(DecodeError::MalformedField(Field::RealmPda)));
    let line = format!("UPPER_BOUND=x,{},REALM_PDA=bad", full_line());
    assert_eq!(decode_str(&line), Err(DecodeError::MalformedField(Field::UpperBound)));
}

#[test]
fn malformed_value_is_reported_even_when_set_again() {
    let line = format!("PID=bad,{}", full_line());
    assert_eq!(decode_str(&line), Err(DecodeError::MalformedField(Field::ProgramId)));
    let line = format!("{},PID=bad", full_line());
    assert_eq!(decode_str(&line), Err(DecodeError::MalformedField(Field::ProgramId)));
}

#[test]
fn no_trimming_of_whitespace() {
    let line = full_line().replace(",", ", ");
    assert_eq!(decode_str(&line), Err(DecodeError::MissingOrDefaultField(Field::UpperBound)));
    let line = format!("{}\n", full_line());
    assert_eq!(decode_str(&line), Err(DecodeError::MalformedField(Field::SpaceshipPda)));
}
