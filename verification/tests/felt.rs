use luminal::felt::cairo_prime_digits;
use luminal::felt::felt_to_fixed;
use luminal::felt::felt_to_int;
use luminal::felt::half_cairo_prime_digits;
use luminal::felt::is_felt;
use num_bigint::BigUint;
use num_traits::Num;

const MAX: i128 = 9223372036854775807;

fn prime() -> BigUint {
    BigUint::from_str_radix(
        "800000000000011000000000000000000000000000000000000000000000001",
        16,
    )
    .unwrap()
}

fn digits(n: &BigUint) -> Vec<u32> {
    n.to_u32_digits()
}

fn below_prime(n: u128) -> Vec<u32> {
    digits(&(prime() - BigUint::from(n)))
}

#[test]
fn the_digits_of_the_prime_are_those_of_its_number() {
    assert_eq!(BigUint::from_slice(&cairo_prime_digits()), prime());
    assert_eq!(BigUint::from_slice(&half_cairo_prime_digits()), prime() >> 1);
}

#[test]
fn a_number_below_the_prime_is_an_element() {
    assert!(is_felt(&vec![]));
    assert!(is_felt(&vec![7]));
    assert!(is_felt(&below_prime(1)));
    assert!(!is_felt(&cairo_prime_digits()));
    assert!(!is_felt(&digits(&(prime() + 1u32))));
}

#[test]
fn small_elements_stand_for_themselves() {
    assert_eq!(felt_to_fixed(&vec![]), Some(0));
    assert_eq!(felt_to_fixed(&vec![5]), Some(5));
    assert_eq!(felt_to_fixed(&vec![0, 1]), Some(4294967296));
    assert_eq!(felt_to_fixed(&digits(&BigUint::from(MAX as u128))), Some(MAX));
    // leading zeros change nothing
    assert_eq!(felt_to_fixed(&vec![5, 0, 0]), Some(5));
}

#[test]
fn elements_near_the_prime_stand_for_negative_numbers() {
    assert_eq!(felt_to_fixed(&below_prime(1)), Some(-1));
    assert_eq!(felt_to_fixed(&below_prime(5)), Some(-5));
    assert_eq!(felt_to_fixed(&below_prime(4294967296)), Some(-4294967296));
    assert_eq!(felt_to_fixed(&below_prime(MAX as u128)), Some(-MAX));
}

#[test]
fn numbers_out_of_range_are_replaced_by_the_largest() {
    assert_eq!(felt_to_fixed(&digits(&BigUint::from(MAX as u128 + 1))), Some(MAX));
    assert_eq!(felt_to_fixed(&digits(&BigUint::from(u128::MAX))), Some(MAX));
    assert_eq!(felt_to_fixed(&below_prime(MAX as u128 + 1)), Some(-MAX));
    assert_eq!(felt_to_fixed(&below_prime(u128::MAX)), Some(-MAX));
    // half of the prime is the first element that stands for a negative number
    let half = prime() >> 1;
    assert_eq!(felt_to_fixed(&digits(&half)), Some(-MAX));
    assert_eq!(felt_to_fixed(&digits(&(&half - 1u32))), Some(MAX));
}

#[test]
fn digits_that_are_no_element_have_no_fixed_point_number() {
    assert_eq!(felt_to_fixed(&cairo_prime_digits()), None);
    assert_eq!(felt_to_fixed(&digits(&(prime() + 5u32))), None);
}

#[test]
fn the_signed_number_of_an_element() {
    assert_eq!(felt_to_int(&vec![5]), (false, vec![5]));
    assert_eq!(felt_to_int(&vec![]), (false, vec![]));
    assert_eq!(felt_to_int(&below_prime(5)), (true, vec![5]));
    assert_eq!(felt_to_int(&below_prime(1 << 64)), (true, vec![0, 0, 1]));
    // half of the prime stands for itself, the next element for a negative number
    let half = prime() >> 1;
    assert_eq!(felt_to_int(&digits(&half)), (false, digits(&half)));
    assert_eq!(felt_to_int(&digits(&(&half + 1u32))), (true, digits(&half)));
    // a number from the prime on stands for itself less the prime
    assert_eq!(felt_to_int(&cairo_prime_digits()), (false, vec![]));
    assert_eq!(felt_to_int(&digits(&(prime() + 3u32))), (false, vec![3]));
}

#[test]
fn field_elements_of_the_machine_are_read_as_fixed_point_numbers() {
    let one: i128 = 4294967296;
    let cases: [i128; 7] = [0, one, -one, one / 2, 4294967296000000, -1, -(MAX - 1)];
    for x in cases {
        let felt = cairo_vm::Felt252::from(x);
        let digits = felt.to_biguint().to_u32_digits();
        assert!(is_felt(&digits));
        assert_eq!(felt_to_fixed(&digits), Some(x));
        let (negative, magnitude) = felt_to_int(&digits);
        assert_eq!(negative, x < 0);
        assert_eq!(BigUint::from_slice(&magnitude), BigUint::from(x.unsigned_abs()));
    }
    // the prime of the machine is the prime of the library
    assert_eq!(cairo_vm::Felt252::prime(), prime());
}
