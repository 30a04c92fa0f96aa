use puzzle_solvers::battery::{
    checked_total_output_joltage, parse_input, total_output_joltage, BatteryBank,
};

#[test]
fn test_battery_bank_joltage() {
    let bank = BatteryBank::from_str("818181911112111").unwrap();
    let joltage = bank.joltage();

    assert_eq!(joltage, 92);
}

#[test]
fn joltage_of_short_banks_is_zero() {
    assert_eq!(BatteryBank::from_str("").unwrap().joltage(), 0);
    for digit in ["0", "5", "9"] {
        assert_eq!(BatteryBank::from_str(digit).unwrap().joltage(), 0);
    }
}

#[test]
fn joltage_keeps_the_order_of_the_pair() {
    assert_eq!(BatteryBank::from_str("09").unwrap().joltage(), 9);
    assert_eq!(BatteryBank::from_str("90").unwrap().joltage(), 90);
    assert_eq!(BatteryBank::from_str("00").unwrap().joltage(), 0);
    assert_eq!(BatteryBank::from_str("12").unwrap().joltage(), 12);
    assert_eq!(BatteryBank::from_str("19").unwrap().joltage(), 19);
    assert_eq!(BatteryBank::from_str("99").unwrap().joltage(), 99);
    assert_eq!(BatteryBank::from_str("129").unwrap().joltage(), 29);
    assert_eq!(BatteryBank::from_str("921").unwrap().joltage(), 92);
}

#[test]
fn joltage_of_longer_banks() {
    assert_eq!(BatteryBank::from_str("987654321111111").unwrap().joltage(), 98);
    assert_eq!(BatteryBank::from_str("811111111111119").unwrap().joltage(), 89);
    assert_eq!(BatteryBank::from_str("234234234234278").unwrap().joltage(), 78);
}

#[test]
fn bank_from_str_reads_each_digit() {
    let bank = BatteryBank::from_str("0123456789").unwrap();
    assert_eq!(bank.digits(), &vec![0u8, 1, 2, 3, 4, 5, 6, 7, 8, 9]);
    assert_eq!(BatteryBank::from_str("").unwrap().digits(), &Vec::<u8>::new());
}

#[test]
fn bank_through_the_std_trait() {
    assert_eq!("42".parse::<BatteryBank>().unwrap().joltage(), 42);
    assert_eq!("4 2".parse::<BatteryBank>().unwrap_err().0, "4 2");
}

#[test]
fn bank_from_str_refuses_any_other_character() {
    for bad in ["12a4", "a", " 12", "12 ", "-1", "+1", "1.5", "12\r", "\u{663}", "1\u{e9}2"] {
        assert_eq!(BatteryBank::from_str(bad).unwrap_err().0, bad);
    }
}

#[test]
fn bank_error_message() {
    let e = BatteryBank::from_str("12a4").unwrap_err();
    assert_eq!(e.message(), "not a correct battery format 12a4");
}

#[test]
fn battery_parse_input_reads_one_bank_per_line() {
    let banks = parse_input("987\n12\n\n5\n").unwrap();
    assert_eq!(banks.len(), 4);
    assert_eq!(banks[0].digits(), &vec![9u8, 8, 7]);
    assert_eq!(banks[1].digits(), &vec![1u8, 2]);
    assert_eq!(banks[2].digits(), &Vec::<u8>::new());
    assert_eq!(banks[3].digits(), &vec![5u8]);
    assert_eq!(parse_input("").unwrap().len(), 0);
    assert_eq!(parse_input("12\r\n34").unwrap().len(), 2);
}

#[test]
fn battery_parse_input_stops_at_first_bad_line() {
    assert_eq!(parse_input("987\n1x2\nyy\n5").unwrap_err().0, "1x2");
    assert_eq!(parse_input("987\n12\r").unwrap_err().0, "12\r");
}

#[test]
fn total_joltage_of_the_example() {
    let banks =
        parse_input("987654321111111\n811111111111119\n234234234234278\n818181911112111").unwrap();
    assert_eq!(total_output_joltage(&banks), 357);
    assert_eq!(checked_total_output_joltage(&banks), Some(357));
}

#[test]
fn total_joltage_of_nothing() {
    assert_eq!(total_output_joltage(&[]), 0);
    let banks = parse_input("\n7\n").unwrap();
    assert_eq!(total_output_joltage(&banks), 0);
}
