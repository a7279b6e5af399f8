use miller_engine::message::{Decimal, Error, Message, MessageElement};

#[test]
fn message_build() {
    let message = Message::builder()
        .with_timestamp(Decimal::new(12345, 3))
        .with_element(MessageElement::Float(Decimal::new(12, 1)))
        .with_element(MessageElement::Symbol("foo".to_string()))
        .with_element(MessageElement::Symbol("bar".to_string()))
        .with_element(MessageElement::Bang)
        .build();

    assert_eq!(message.timestamp(), Decimal::new(12345, 3));
    assert_eq!(message.num_elements(), 4);
    assert_eq!(
        message.element_at(0),
        Some(&MessageElement::Float(Decimal::new(12, 1)))
    );
    assert_eq!(
        message.element_at(1),
        Some(&MessageElement::Symbol("foo".to_string()))
    );
    assert_eq!(
        message.element_at(2),
        Some(&MessageElement::Symbol("bar".to_string()))
    );
    assert_eq!(message.element_at(3), Some(&MessageElement::Bang));
    assert_eq!(message.element_at(4), None);
}

#[test]
fn message_to_string() {
    let message = Message::builder()
        .with_timestamp(Decimal::new(12345, 3))
        .with_element(MessageElement::Float(Decimal::new(12, 1)))
        .with_element(MessageElement::Symbol("foo".to_string()))
        .with_element(MessageElement::Symbol("bar".to_string()))
        .with_element(MessageElement::Bang)
        .build();

    assert_eq!("1.2 foo bar bang".to_string(), message.to_string());
}

#[test]
fn message_from_string() {
    let message = Message::from_str(Decimal::new(12345, 3), "1.0 foo bar bang").unwrap();
    let expected = Message::builder()
        .with_timestamp(Decimal::new(12345, 3))
        .with_element(MessageElement::Float(Decimal::new(10, 1)))
        .with_element(MessageElement::Symbol("foo".to_string()))
        .with_element(MessageElement::Symbol("bar".to_string()))
        .with_element(MessageElement::Bang)
        .build();

    assert_eq!(message.timestamp(), expected.timestamp());

    for n in 0..message.num_elements() {
        assert_eq!(message.element_at(n), expected.element_at(n));
    }
}

#[test]
fn message_round_trip() {
    let message = Message::builder()
        .with_element(MessageElement::Float(Decimal::new(12, 1)))
        .with_element(MessageElement::Symbol("foo".to_string()))
        .with_element(MessageElement::Symbol("bar".to_string()))
        .with_element(MessageElement::Bang)
        .build();
    let text = message.to_string();
    let back = Message::from_str(Decimal::zero(), &text).unwrap();
    assert_eq!(back.num_elements(), 4);
    for n in 0..4 {
        assert_eq!(back.element_at(n), message.element_at(n));
    }
}

#[test]
fn numbers_are_written_in_shortest_form() {
    let cases: [(i64, u32, &str); 7] = [
        (0, 0, "0"),
        (10, 1, "1"),
        (-5, 2, "-0.05"),
        (1200, 0, "1200"),
        (-12000, 3, "-12"),
        (7, 0, "7"),
        (123456, 3, "123.456"),
    ];
    for (digits, scale, text) in cases {
        let m = Message::builder()
            .with_element(MessageElement::Float(Decimal::new(digits, scale)))
            .build();
        assert_eq!(m.to_string(), text);
    }
    let d = Decimal::new(-12000, 3);
    assert!(d.is_negative());
    assert_eq!(d.magnitude(), 12);
    assert_eq!(d.scale(), 0);
    assert!(!Decimal::new(0, 4).is_negative());
    assert_eq!(Decimal::new(0, 4), Decimal::zero());
    assert_eq!(Decimal::from_parts(true, 0, 2), Decimal::zero());
    assert_eq!(Decimal::new(i64::MIN, 0).magnitude(), 9223372036854775808);
}

#[test]
fn reading_words() {
    let m = Message::from_str(Decimal::zero(), "  -0.05\tx 1. -  bang\n12 ").unwrap();
    assert_eq!(m.num_elements(), 6);
    assert_eq!(m.element_at(0), Some(&MessageElement::Float(Decimal::new(-5, 2))));
    assert_eq!(m.element_at(1), Some(&MessageElement::Symbol("x".to_string())));
    assert_eq!(m.element_at(2), Some(&MessageElement::Symbol("1.".to_string())));
    assert_eq!(m.element_at(3), Some(&MessageElement::Symbol("-".to_string())));
    assert_eq!(m.element_at(4), Some(&MessageElement::Bang));
    assert_eq!(m.element_at(5), Some(&MessageElement::Float(Decimal::new(12, 0))));
}

#[test]
fn reading_refuses_empty_and_long_numbers() {
    assert_eq!(Message::from_str(Decimal::zero(), "").err(), Some(Error::Parse));
    assert_eq!(Message::from_str(Decimal::zero(), " \t ").err(), Some(Error::Parse));
    assert_eq!(
        Message::from_str(Decimal::zero(), "a 12345678901234567890").err(),
        Some(Error::Parse)
    );
    assert!(Message::from_str(Decimal::zero(), "1234567890123456789").is_ok());
    assert_eq!(Error::Parse.message(), "Can't parse message.");
    assert_eq!(Error::RawMessageIsNull.message(), "Raw message is null.");
}

#[test]
fn default_element_is_bang() {
    assert_eq!(MessageElement::default(), MessageElement::Bang);
}
