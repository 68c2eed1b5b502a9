use std::rc::Rc;

use interpreter::env::Env;
use interpreter::fault::{type_mismatch, Fault};
use interpreter::interpreter::{interpret_binary, is_equal};
use interpreter::number::{Number, MAX_EXACT};
use interpreter::types::{BinaryOp, Location, Term};
use interpreter::value::{
    assert_bool, assert_closure, assert_int, assert_tuple, cast_to_string, show_value, Closure,
    Value,
};

fn number(n: i32) -> Value {
    Value::Number(Number::from_i32(n))
}

fn string(s: &str) -> Value {
    Value::String(String::from(s))
}

fn pair(first: Value, second: Value) -> Value {
    Value::Tuple(Box::new(first), Box::new(second))
}

fn closure() -> Closure {
    Closure {
        body: Rc::new(Term::Bool {
            value: true,
            location: Location { start: 1, end: 5, filename: String::from("f") },
        }),
        parameters: vec![String::from("a")],
        env: Env::new().extend(String::from("x"), number(1)),
    }
}

#[test]
fn type_mismatch_names_the_expected_kind() {
    assert_eq!(type_mismatch("tuple"), Fault::TypeMismatch(String::from("tuple")));
    assert_eq!(type_mismatch(""), Fault::TypeMismatch(String::new()));
}

#[test]
fn accessors_return_the_payload() {
    assert_eq!(assert_int(&number(3)), Ok(Number::from_i32(3)));
    assert_eq!(assert_bool(&Value::Boolean(true)), Ok(true));
    let tuple = pair(number(1), string("b"));
    assert_eq!(assert_tuple(&tuple), Ok((&number(1), &string("b"))));
    let value = Value::Closure(closure());
    assert_eq!(assert_closure(&value), Ok(&closure()));
}

#[test]
fn accessors_fault_on_another_kind() {
    assert_eq!(assert_int(&string("3")), Err(Fault::TypeMismatch(String::from("number"))));
    assert_eq!(assert_bool(&number(1)), Err(Fault::TypeMismatch(String::from("boolean"))));
    assert_eq!(assert_tuple(&number(1)), Err(Fault::TypeMismatch(String::from("tuple"))));
    assert_eq!(
        assert_closure(&Value::Boolean(false)),
        Err(Fault::TypeMismatch(String::from("closure")))
    );
}

#[test]
fn cast_to_string_takes_numbers_and_strings() {
    assert_eq!(cast_to_string(&number(-15)), Ok(String::from("-15")));
    assert_eq!(cast_to_string(&string("abc")), Ok(String::from("abc")));
    assert_eq!(
        cast_to_string(&Value::Boolean(true)),
        Err(Fault::TypeMismatch(String::from("string or number")))
    );
    assert_eq!(
        cast_to_string(&Value::Closure(closure())),
        Err(Fault::TypeMismatch(String::from("string or number")))
    );
}

#[test]
fn show_value_renders_each_kind() {
    assert_eq!(show_value(&number(120)), "120");
    assert_eq!(show_value(&Value::Boolean(true)), "true");
    assert_eq!(show_value(&Value::Boolean(false)), "false");
    assert_eq!(show_value(&string("verbatim, (text)")), "verbatim, (text)");
    assert_eq!(show_value(&Value::Closure(closure())), "<#closure>");
    assert_eq!(show_value(&pair(number(1), pair(string("a"), number(2)))), "(1, (a, 2))");
}

#[test]
fn is_equal_compares_within_a_kind() {
    assert_eq!(is_equal(&number(1), &number(1)), Ok(true));
    assert_eq!(is_equal(&number(1), &number(-1)), Ok(false));
    assert_eq!(is_equal(&string("a"), &string("a")), Ok(true));
    assert_eq!(is_equal(&string("a"), &string("b")), Ok(false));
    assert_eq!(is_equal(&Value::Boolean(true), &Value::Boolean(true)), Ok(true));
    assert_eq!(
        is_equal(&number(1), &string("1")),
        Err(Fault::TypeMismatch(String::from("number or string or boolean")))
    );
}

#[test]
fn interpret_binary_applies_each_operator() {
    assert_eq!(interpret_binary(&number(2), &number(3), &BinaryOp::Add), Ok(number(5)));
    assert_eq!(interpret_binary(&number(2), &number(3), &BinaryOp::Sub), Ok(number(-1)));
    assert_eq!(interpret_binary(&number(2), &number(3), &BinaryOp::Mul), Ok(number(6)));
    assert_eq!(interpret_binary(&number(7), &number(2), &BinaryOp::Div), Ok(number(3)));
    assert_eq!(interpret_binary(&number(7), &number(2), &BinaryOp::Rem), Ok(number(1)));
    assert_eq!(interpret_binary(&number(2), &number(3), &BinaryOp::Eq), Ok(Value::Boolean(false)));
    assert_eq!(interpret_binary(&number(2), &number(3), &BinaryOp::Neq), Ok(Value::Boolean(true)));
    assert_eq!(interpret_binary(&number(2), &number(3), &BinaryOp::Lt), Ok(Value::Boolean(true)));
    assert_eq!(interpret_binary(&number(2), &number(3), &BinaryOp::Gt), Ok(Value::Boolean(false)));
    assert_eq!(interpret_binary(&number(3), &number(3), &BinaryOp::Lte), Ok(Value::Boolean(true)));
    assert_eq!(interpret_binary(&number(2), &number(3), &BinaryOp::Gte), Ok(Value::Boolean(false)));
    assert_eq!(
        interpret_binary(&Value::Boolean(true), &Value::Boolean(false), &BinaryOp::And),
        Ok(Value::Boolean(false))
    );
    assert_eq!(
        interpret_binary(&Value::Boolean(true), &Value::Boolean(false), &BinaryOp::Or),
        Ok(Value::Boolean(true))
    );
}

#[test]
fn clone_value_copies_every_kind() {
    let values = vec![
        number(1),
        string("s"),
        Value::Boolean(true),
        Value::Closure(closure()),
        pair(pair(number(1), string("x")), Value::Closure(closure())),
    ];
    for value in values.iter() {
        assert_eq!(&value.clone_value(), value);
        assert_eq!(&value.clone(), value);
    }
}

#[test]
fn environment_lookup_finds_the_latest_binding() {
    let empty = Env::new();
    assert_eq!(
        empty.lookup(&String::from("x")),
        Err(Fault::UndefinedVariable(String::from("x")))
    );
    let one = empty.extend(String::from("x"), number(1));
    let two = one.extend(String::from("y"), number(2));
    let three = two.extend(String::from("x"), number(3));
    assert_eq!(three.lookup(&String::from("x")), Ok(number(3)));
    assert_eq!(three.lookup(&String::from("y")), Ok(number(2)));
    assert_eq!(
        three.lookup(&String::from("z")),
        Err(Fault::UndefinedVariable(String::from("z")))
    );
}

#[test]
fn extending_an_environment_leaves_it_as_it_was() {
    let one = Env::new().extend(String::from("x"), number(1));
    let two = one.extend(String::from("x"), number(2));
    let other = one.extend(String::from("y"), number(3));
    assert_eq!(one.lookup(&String::from("x")), Ok(number(1)));
    assert_eq!(
        one.lookup(&String::from("y")),
        Err(Fault::UndefinedVariable(String::from("y")))
    );
    assert_eq!(two.lookup(&String::from("x")), Ok(number(2)));
    assert_eq!(other.lookup(&String::from("x")), Ok(number(1)));
    assert_eq!(one.clone_env(), one);
}

#[test]
fn numbers_from_integers() {
    assert_eq!(Number::from_i32(5).as_i64(), Some(5));
    assert_eq!(Number::from_i32(i32::MIN).as_i64(), Some(-2_147_483_648));
    assert_eq!(Number::from_i64(MAX_EXACT).unwrap().as_i64(), Some(9_007_199_254_740_992));
    assert_eq!(Number::from_i64(-MAX_EXACT).unwrap().as_i64(), Some(-9_007_199_254_740_992));
    // beyond 2^53 only every second integer is a double, then every fourth, and so on
    assert_eq!(Number::from_i64(MAX_EXACT + 1), None);
    assert_eq!(Number::from_i64(-MAX_EXACT - 1), None);
    assert_eq!(Number::from_i64(MAX_EXACT + 2).unwrap().as_i64(), Some(MAX_EXACT + 2));
    assert_eq!(Number::from_i64(i64::MAX), None);
    assert_eq!(Number::from_i64(i64::MIN), Some(Number::from_parts(true, 1, 63)));
    assert_eq!(Number::from_i64(i64::MIN).unwrap().as_i64(), None);
    assert_eq!(Number::from_i64(0), Some(Number::from_i32(0)));
    assert_eq!(Number::nan().as_i64(), None);
    assert_eq!(Number::infinity().as_i64(), None);
    assert_eq!(Number::neg_zero().as_i64(), None);
    assert_eq!(Number::from_parts(false, 3, 4).as_i64(), Some(48));
    assert_eq!(Number::from_parts(true, 0, 7), Number::neg_zero());
    assert_eq!(Number::from_parts(false, 1, 1024), Number::infinity());
    assert_eq!(Number::from_parts(true, u64::MAX, 960), Number::neg_infinity());
    assert_eq!(Number::from_parts(false, u64::MAX, 0), Number::from_parts(false, 1, 64));
}

#[test]
fn number_text_is_decimal() {
    assert_eq!(Number::from_i32(0).to_text(), "0");
    assert_eq!(Number::from_i32(7).to_text(), "7");
    assert_eq!(Number::from_i32(10).to_text(), "10");
    assert_eq!(Number::from_i32(-1234567890).to_text(), "-1234567890");
    assert_eq!(Number::from_i64(MAX_EXACT).unwrap().to_text(), "9007199254740992");
    assert_eq!(Number::from_i64(-MAX_EXACT).unwrap().to_text(), "-9007199254740992");
    // beyond 2^53 a number is written with the fewest digits that read back as it
    assert_eq!(Number::from_parts(false, 1, 60).to_text(), "1152921504606847000");
    assert_eq!(Number::from_parts(false, 1, 64).to_text(), "18446744073709552000");
    assert_eq!(Number::from_parts(true, 5, 70).to_text(), "-5902958103587057000000");
    assert_eq!(Number::from_parts(false, 3, 53).to_text(), "27021597764222976");
    assert_eq!(number_of(1e23).to_text(), "100000000000000000000000");
    assert_eq!(number_of(9007199254740993.0).to_text(), "9007199254740992");
    assert_eq!(number_of(9007199254740994.0).to_text(), "9007199254740994");
    assert_eq!(Number::nan().to_text(), "NaN");
    assert_eq!(Number::infinity().to_text(), "inf");
    assert_eq!(Number::neg_infinity().to_text(), "-inf");
    assert_eq!(Number::neg_zero().to_text(), "-0");
}

/// The number that an integer-valued double is.
fn number_of(double: f64) -> Number {
    if double.is_nan() {
        return Number::nan();
    }
    if double.is_infinite() {
        return if double > 0.0 { Number::infinity() } else { Number::neg_infinity() };
    }
    assert_eq!(double.fract(), 0.0);
    let bits = double.to_bits();
    let negative = (bits >> 63) == 1;
    let field = ((bits >> 52) & 0x7ff) as i32;
    let fraction = bits & ((1u64 << 52) - 1);
    if field == 0 {
        assert_eq!(fraction, 0);
        return Number::from_parts(negative, 0, 0);
    }
    let significand = fraction | (1u64 << 52);
    let exponent = field - 1075;
    if exponent >= 0 {
        Number::from_parts(negative, significand, exponent as u16)
    } else {
        Number::from_parts(negative, significand >> (-exponent), 0)
    }
}

fn samples() -> Vec<f64> {
    let mut all: Vec<f64> = vec![
        f64::NAN,
        f64::INFINITY,
        f64::NEG_INFINITY,
        -0.0,
        f64::MAX,
        f64::MIN,
        f64::MAX / 2.0,
        27021597764222972.0,
        9007199254740991.0,
        9007199254740992.0,
        9007199254740994.0,
        4503599627370496.0,
        4503599627370495.0,
        4503599627370497.0,
        13510798882111486.0,
        18014398509481984.0,
        1e22,
        1e300,
        -1e200,
        3e153,
    ];
    let integers: Vec<i64> = vec![
        0, 1, -1, 2, -2, 3, -3, 4, 5, 7, -7, 10, -10, 1023, 1024, 4096, -4097, 94_906_265,
        -94_906_266, 1_000_000_007, 3_037_000_499,
    ];
    for n in integers {
        all.push(n as f64);
    }
    let mut state: u64 = 0x2545_f491_4f6c_dd1d;
    for round in 0..160u32 {
        state ^= state << 13;
        state ^= state >> 7;
        state ^= state << 17;
        let significand = (state >> 11) | (1u64 << 52);
        let exponent = match round % 8 {
            0 => 0,
            1 => 1,
            2 => 2,
            3 => (state % 70) as i32,
            4 => (state % 972) as i32,
            5 => -((state % 52) as i32),
            6 => 60 + (state % 12) as i32,
            _ => 900 + (state % 72) as i32,
        };
        let mut value = (significand as f64) * 2f64.powi(exponent);
        value = value.trunc();
        if round % 3 == 0 {
            value = -value;
        }
        all.push(value);
    }
    all
}

#[test]
fn number_text_matches_the_text_of_the_double() {
    let mut doubles = samples();
    let mut power = 1.0f64;
    for _ in 0..300u32 {
        doubles.push(power);
        doubles.push(-power * 3.0);
        power *= 10.0;
    }
    let mut binary = 1.0f64;
    for _ in 0..1023u32 {
        doubles.push(binary);
        binary *= 2.0;
    }
    for x in doubles {
        let number = number_of(x);
        assert_eq!(number.to_text(), x.to_string(), "{:e}", x);
        if x.is_finite() {
            assert_eq!(number.to_text().parse::<f64>().unwrap().to_bits(), x.to_bits());
        }
    }
}

#[test]
fn arithmetic_agrees_with_doubles() {
    let doubles = samples();
    let numbers: Vec<Number> = doubles.iter().map(|x| number_of(*x)).collect();
    for (x, a) in doubles.iter().zip(numbers.iter()) {
        for (y, b) in doubles.iter().zip(numbers.iter()) {
            assert_eq!(a.add(b), number_of(x + y), "{:e} + {:e}", x, y);
            assert_eq!(a.sub(b), number_of(x - y), "{:e} - {:e}", x, y);
            assert_eq!(a.mul(b), number_of(x * y), "{:e} * {:e}", x, y);
            assert_eq!(a.div(b), number_of((x / y).floor()), "{:e} / {:e}", x, y);
            assert_eq!(a.rem(b), number_of((x % y).floor()), "{:e} % {:e}", x, y);
            assert_eq!(a.lt(b), x < y, "{:e} < {:e}", x, y);
            assert_eq!(a.le(b), x <= y, "{:e} <= {:e}", x, y);
            assert_eq!(a.close_to(b), (x - y).abs() < f64::EPSILON, "{:e} == {:e}", x, y);
        }
        assert_eq!(a.neg(), number_of(-x), "-{:e}", x);
    }
}

#[test]
fn division_rounds_the_quotient_before_it_rounds_down() {
    // (3 * 2^53 - 4) / (2^53 - 1) is just below 3; the nearest double is 3
    let a = number_of(27021597764222972.0);
    let b = number_of(9007199254740991.0);
    assert_eq!(a.div(&b), Number::from_i32(3));
    assert_eq!(a.neg().div(&b), Number::from_i32(-3));
    assert_eq!(27021597764222972.0f64 / 9007199254740991.0f64, 3.0);
    // within 2^53 the rounded quotient never reaches the next integer
    let c = number_of(9007199254740991.0);
    let d = number_of(4503599627370496.0);
    assert_eq!(c.div(&d), Number::from_i32(1));
    assert_eq!(c.neg().div(&d), Number::from_i32(-2));
}
