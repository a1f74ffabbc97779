use ghostdump::engine::strategy::{
    format_credit_card, format_phone_br, generate_fake_credit_card, generate_fake_phone_br,
    hmac_hash, StrategyConfig,
};
use rand::rngs::StdRng;
use rand::Rng;
use rand::SeedableRng;

fn seeded_rng() -> StdRng {
    StdRng::seed_from_u64(42)
}

/// The noise mechanism as the application wires it: the value read as a
/// number (0 when it is none), passed through unchanged, printed again.
fn laplace_noise(value: &[u8], _epsilon: u64, _sensitivity: u64) -> Vec<u8> {
    let parsed: f64 = std::str::from_utf8(value)
        .ok()
        .and_then(|s| s.parse::<f64>().ok())
        .unwrap_or(0.0);
    parsed.to_string().into_bytes()
}

#[test]
fn test_all_strategies_do_not_panic() {
    let mut rng = seeded_rng();

    let strategies = vec![
        StrategyConfig::FakerName,
        StrategyConfig::FakerEmail,
        StrategyConfig::FakerIp,
        StrategyConfig::RandomUuid,
        StrategyConfig::FakeCreditCard,
        StrategyConfig::FakerPhoneBr,
        StrategyConfig::Cpf,
        StrategyConfig::Cnpj,
        StrategyConfig::Nullify,
        StrategyConfig::Fixed {
            value: b"STABLE".to_vec(),
        },
        StrategyConfig::RandomChoice {
            options: vec![b"A".to_vec(), b"B".to_vec()],
        },
        StrategyConfig::RandomString { length: 8 },
        StrategyConfig::Hmac,
        StrategyConfig::DpLaplace {
            epsilon: 1.0f64.to_bits(),
            sensitivity: 100.0f64.to_bits(),
        },
    ];

    for strategy in strategies {
        let _ = strategy.apply(Some(b"12345"), &mut rng, b"secret", &laplace_noise);
    }
}

#[test]
fn test_nullify_strategy() {
    let mut rng = seeded_rng();
    let result = StrategyConfig::Nullify.apply(Some(b"123"), &mut rng, b"secret", &laplace_noise);
    assert!(result.is_none());
}

#[test]
fn test_fixed_strategy() {
    let mut rng = seeded_rng();
    let strategy = StrategyConfig::Fixed {
        value: b"CONST".to_vec(),
    };
    let result = strategy.apply(Some(b"123"), &mut rng, b"secret", &laplace_noise);
    assert_eq!(result.unwrap(), b"CONST");
}

#[test]
fn test_random_string_length() {
    let mut rng = seeded_rng();
    let strategy = StrategyConfig::RandomString { length: 12 };
    let result = strategy
        .apply(Some(b"abc"), &mut rng, b"secret", &laplace_noise)
        .unwrap();
    assert_eq!(result.len(), 12);
}

#[test]
fn test_random_choice_returns_valid_option() {
    let mut rng = seeded_rng();
    let options: Vec<Vec<u8>> = vec![b"A".to_vec(), b"B".to_vec()];
    let strategy = StrategyConfig::RandomChoice {
        options: options.clone(),
    };

    let result = strategy
        .apply(Some(b"abc"), &mut rng, b"secret", &laplace_noise)
        .unwrap();
    assert!(options.contains(&result));
}

#[test]
fn test_uuid_strategy_valid_format() {
    let mut rng = seeded_rng();
    let result = StrategyConfig::RandomUuid
        .apply(Some(b"abc"), &mut rng, b"secret", &laplace_noise)
        .unwrap();

    let text = String::from_utf8(result).unwrap();
    assert!(uuid::Uuid::parse_str(&text).is_ok());
}

#[test]
fn test_cpf_strategy_structure() {
    let mut rng = seeded_rng();
    let result = StrategyConfig::Cpf
        .apply(Some(b"abc"), &mut rng, b"secret", &laplace_noise)
        .unwrap();

    assert_eq!(result.len(), 11);
    assert!(result.iter().all(|c| c.is_ascii_digit()));
}

#[test]
fn test_cnpj_strategy_structure() {
    let mut rng = seeded_rng();
    let result = StrategyConfig::Cnpj
        .apply(Some(b"abc"), &mut rng, b"secret", &laplace_noise)
        .unwrap();

    assert_eq!(result.len(), 14);
    assert!(result.iter().all(|c| c.is_ascii_digit()));
}

#[test]
fn test_credit_card_structure() {
    let mut rng = seeded_rng();
    let result = StrategyConfig::FakeCreditCard
        .apply(Some(b"abc"), &mut rng, b"secret", &laplace_noise)
        .unwrap();

    assert_eq!(result.len(), 19);
    assert_eq!(result.iter().filter(|&&c| c == b'-').count(), 3);
}

#[test]
fn test_phone_br_format() {
    let mut rng = seeded_rng();
    let result = StrategyConfig::FakerPhoneBr
        .apply(Some(b"abc"), &mut rng, b"secret", &laplace_noise)
        .unwrap();

    assert!(result.starts_with(b"("));
}

#[test]
fn test_hmac_is_deterministic_for_same_input() {
    let mut rng1 = seeded_rng();
    let mut rng2 = seeded_rng();

    let strategy = StrategyConfig::Hmac;

    let r1 = strategy.apply(Some(b"123"), &mut rng1, b"secret", &laplace_noise);
    let r2 = strategy.apply(Some(b"123"), &mut rng2, b"secret", &laplace_noise);

    assert_eq!(r1, r2);
}

#[test]
fn test_dp_laplace_returns_value() {
    let mut rng = seeded_rng();

    let strategy = StrategyConfig::DpLaplace {
        epsilon: 1.0f64.to_bits(),
        sensitivity: 100.0f64.to_bits(),
    };

    let result = strategy.apply(Some(b"5000"), &mut rng, b"secret", &laplace_noise);

    assert!(result.is_some());
    assert!(!result.unwrap().is_empty());
}

#[test]
fn hmac_hash_matches_reference_vector() {
    assert_eq!(
        hmac_hash(b"123", b"secret"),
        b"77de38e4b50e618a0ebb95db61e2f42697391659d82c064a5f81b9f48d85ccd5".to_vec()
    );
}

#[test]
fn hmac_strategy_without_value_hashes_empty_text() {
    let mut rng = seeded_rng();
    let result = StrategyConfig::Hmac.apply(None, &mut rng, b"secret", &laplace_noise);
    assert_eq!(
        result,
        Some(b"f9e66e179b6747ae54108f82f8ade8b3c25d76fd30afde6c395822c530196169".to_vec())
    );
}

#[test]
fn hmac_pseudonyms_differ_by_secret() {
    assert_ne!(hmac_hash(b"123", b"secret"), hmac_hash(b"123", b"other"));
    assert_eq!(hmac_hash(b"123", b"secret").len(), 64);
}

#[test]
fn dp_laplace_without_value_uses_zero() {
    let mut rng = seeded_rng();
    let strategy = StrategyConfig::DpLaplace {
        epsilon: 0.5f64.to_bits(),
        sensitivity: 1.0f64.to_bits(),
    };
    assert_eq!(strategy.apply(None, &mut rng, b"s", &laplace_noise), Some(b"0".to_vec()));
    assert_eq!(
        strategy.apply(Some(b"12.50"), &mut rng, b"s", &laplace_noise),
        Some(b"12.5".to_vec())
    );
}

#[test]
fn random_choice_without_options_gives_empty_text() {
    let mut rng = seeded_rng();
    let strategy = StrategyConfig::RandomChoice { options: vec![] };
    assert_eq!(strategy.apply(Some(b"x"), &mut rng, b"s", &laplace_noise), Some(Vec::new()));
}

#[test]
fn credit_card_groups_are_four_digits() {
    let mut rng = seeded_rng();
    for _ in 0..50 {
        let card = generate_fake_credit_card(&mut rng);
        assert_eq!(card.len(), 19);
        for (i, c) in card.iter().enumerate() {
            if i == 4 || i == 9 || i == 14 {
                assert_eq!(*c, b'-');
            } else {
                assert!(c.is_ascii_digit());
            }
        }
    }
}

#[test]
fn phone_numbers_have_brazilian_mobile_shape() {
    let mut rng = seeded_rng();
    for _ in 0..50 {
        let phone = generate_fake_phone_br(&mut rng);
        assert_eq!(phone.len(), 15);
        assert_eq!(&phone[0..1], b"(");
        assert_eq!(&phone[3..6], b") 9");
        assert_eq!(phone[10], b'-');
        let area: u32 = std::str::from_utf8(&phone[1..3]).unwrap().parse().unwrap();
        assert!((11..=99).contains(&area));
    }
}

#[test]
fn email_and_ip_have_their_shapes() {
    let mut rng = seeded_rng();
    let email = StrategyConfig::FakerEmail
        .apply(None, &mut rng, b"s", &laplace_noise)
        .unwrap();
    let email = String::from_utf8(email).unwrap();
    assert!(
        email.ends_with("@example.com")
            || email.ends_with("@example.net")
            || email.ends_with("@example.org")
    );
    let ip = StrategyConfig::FakerIp
        .apply(None, &mut rng, b"s", &laplace_noise)
        .unwrap();
    let ip = String::from_utf8(ip).unwrap();
    let parts: Vec<&str> = ip.split('.').collect();
    assert_eq!(parts.len(), 4);
    assert!(parts.iter().all(|p| p.parse::<u8>().is_ok()));
}

#[test]
fn random_string_is_alphanumeric() {
    let mut rng = seeded_rng();
    let s = StrategyConfig::RandomString { length: 40 }
        .apply(None, &mut rng, b"s", &laplace_noise)
        .unwrap();
    assert_eq!(s.len(), 40);
    assert!(s.iter().all(|c| c.is_ascii_alphanumeric()));
}

#[test]
fn cpf_and_cnpj_carry_valid_check_digits() {
    let mut rng = seeded_rng();
    for _ in 0..20 {
        let cpf = StrategyConfig::Cpf
            .apply(None, &mut rng, b"s", &laplace_noise)
            .unwrap();
        assert!(cpf_cnpj::cpf::validate(&String::from_utf8(cpf).unwrap()));
        let cnpj = StrategyConfig::Cnpj
            .apply(None, &mut rng, b"s", &laplace_noise)
            .unwrap();
        assert_eq!(&cnpj[8..12], b"0001");
        assert!(cpf_cnpj::cnpj::validate(&String::from_utf8(cnpj).unwrap()));
    }
}

#[test]
fn uuid_strategy_is_hyphenated_lowercase_version_four() {
    let mut rng = seeded_rng();
    let text = StrategyConfig::RandomUuid
        .apply(None, &mut rng, b"s", &laplace_noise)
        .unwrap();
    assert_eq!(text.len(), 36);
    for (i, c) in text.iter().enumerate() {
        if i == 8 || i == 13 || i == 18 || i == 23 {
            assert_eq!(*c, b'-');
        } else {
            assert!(c.is_ascii_digit() || (b'a'..=b'f').contains(c));
        }
    }
    assert_eq!(text[14], b'4');
    assert!(b"89ab".contains(&text[19]));
}

#[test]
fn faker_name_is_first_space_last() {
    let mut rng = seeded_rng();
    for _ in 0..20 {
        let name = StrategyConfig::FakerName
            .apply(Some(b"Alice Smith"), &mut rng, b"k", &laplace_noise)
            .unwrap();
        let spaces: Vec<usize> =
            name.iter().enumerate().filter(|(_, &b)| b == b' ').map(|(i, _)| i).collect();
        assert_eq!(spaces.len(), 1);
        assert!(spaces[0] > 0 && spaces[0] < name.len() - 1);
        assert!(name.iter().all(|&b| b == b' ' || b == b'\'' || b.is_ascii_alphabetic()));
    }
}

#[test]
fn formatters_pad_each_group() {
    assert_eq!(format_credit_card(12, 3456, 7, 0), b"0012-3456-0007-0000".to_vec());
    assert_eq!(format_phone_br(11, 987, 65), b"(11) 90987-0065".to_vec());
}

#[test]
fn deterministic_strategies_leave_the_rng_alone() {
    let mut rng = seeded_rng();
    let mut untouched = seeded_rng();
    StrategyConfig::Hmac.apply(Some(b"123"), &mut rng, b"secret", &laplace_noise);
    StrategyConfig::Fixed { value: b"x".to_vec() }.apply(None, &mut rng, b"secret", &laplace_noise);
    assert_eq!(rng.gen::<u64>(), untouched.gen::<u64>());
}
