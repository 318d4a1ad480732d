use maccel_core::fixed::{Fpt, ParseError};
use maccel_core::params::Param;
use maccel_core::persist::{decode_param_text, encode_param_text, reset_script_contents, StoreError};

fn fpt(x: f64) -> Fpt {
    Fpt::from_f64_bits(x.to_bits())
}

#[test]
fn fpt_and_float_conversion_to_and_fro() {
    fn assert_for(value: f64) {
        let fp = fpt(value);
        assert_eq!(f64::from_bits(fp.to_f64_bits()), value);
    }

    assert_for(1.5);
    assert_for(4.5);
    assert_for(1.0);
    assert_for(0.0);
    assert_for(0.125);
    assert_for(0.5);
}

#[test]
fn float_conversion_uses_the_fixed_scale() {
    assert_eq!(fpt(3.0), Fpt(12884901888));
    assert_eq!(fpt(4.0), Fpt(17179869184));
    assert_eq!(fpt(1.5), Fpt(6442450944));
    assert_eq!(fpt(-1.5), Fpt(-6442450944));
    assert_eq!(fpt(0.0), Fpt(0));
}

#[test]
fn format_param_value_works() {
    assert_eq!(fpt(1.5).render(), "1.5");
    assert_eq!(fpt(1.50).render(), "1.5");
    assert_eq!(fpt(100.0).render(), "100");
    assert_eq!(fpt(0.0600).render(), "0.06");
    assert_eq!(fpt(0.055000).render(), "0.055");
}

#[test]
fn render_trims_and_signs() {
    assert_eq!(Fpt(0).render(), "0");
    assert_eq!(fpt(-0.06).render(), "-0.06");
    assert_eq!(fpt(12.0).render(), "12");
    assert_eq!(Fpt(1).render(), "0");
    assert_eq!(Fpt(-1).render(), "0");
}

#[test]
fn parse_reads_decimals() {
    assert_eq!(Fpt::parse("1.5"), Ok(Fpt(6442450944)));
    assert_eq!(Fpt::parse("100"), Ok(Fpt(429496729600)));
    assert_eq!(Fpt::parse("-1.5"), Ok(Fpt(-6442450944)));
    assert_eq!(Fpt::parse("0.06"), Ok(Fpt(257698038)));
    assert_eq!(Fpt::parse("007"), Ok(Fpt(7 * 0x1_0000_0000)));
}

#[test]
fn parse_rejects_bad_text() {
    assert_eq!(Fpt::parse(""), Err(ParseError::Malformed));
    assert_eq!(Fpt::parse("-"), Err(ParseError::Malformed));
    assert_eq!(Fpt::parse("5."), Err(ParseError::Malformed));
    assert_eq!(Fpt::parse(".5"), Err(ParseError::Malformed));
    assert_eq!(Fpt::parse("--1"), Err(ParseError::Malformed));
    assert_eq!(Fpt::parse("1.2.3"), Err(ParseError::Malformed));
    assert_eq!(Fpt::parse("1,5"), Err(ParseError::Malformed));
    assert_eq!(Fpt::parse("99999999999"), Err(ParseError::OutOfRange));
}

#[test]
fn parse_render_round_trip_is_stable() {
    // A value with more precision than the display keeps.
    let v = Fpt::parse("0.123456789").unwrap();
    let w = Fpt::parse(v.render().as_str()).unwrap();
    assert_eq!(Fpt::parse(w.render().as_str()).unwrap(), w);
    // Values straight off the display form come back unchanged.
    for s in ["1.5", "100", "0.06", "-2.25", "0.00001"] {
        let x = Fpt::parse(s).unwrap();
        assert_eq!(Fpt::parse(x.render().as_str()).unwrap(), x);
        assert_eq!(x.render(), s);
    }
}

#[test]
fn raw_text_round_trips() {
    assert_eq!(encode_param_text(Fpt(6442450944)), "6442450944");
    assert_eq!(encode_param_text(Fpt(-42)), "-42");
    assert_eq!(encode_param_text(Fpt(0)), "0");
    assert_eq!(decode_param_text(" 6442450944\n"), Ok(Fpt(6442450944)));
    assert_eq!(decode_param_text("-42"), Ok(Fpt(-42)));
    assert_eq!(decode_param_text("9223372036854775807"), Ok(Fpt(i64::MAX)));
    assert_eq!(decode_param_text("-9223372036854775808"), Ok(Fpt(i64::MIN)));
    for v in [i64::MIN, -1, 0, 1, i64::MAX, 12884901888] {
        assert_eq!(decode_param_text(encode_param_text(Fpt(v)).as_str()), Ok(Fpt(v)));
    }
}

#[test]
fn raw_text_rejects_bad_input() {
    assert_eq!(decode_param_text(""), Err(StoreError::Malformed));
    assert_eq!(decode_param_text("   "), Err(StoreError::Malformed));
    assert_eq!(decode_param_text("1.5"), Err(StoreError::Malformed));
    assert_eq!(decode_param_text("12a"), Err(StoreError::Malformed));
    assert_eq!(decode_param_text("9223372036854775808"), Err(StoreError::Malformed));
    assert_eq!(decode_param_text("-9223372036854775809"), Err(StoreError::Malformed));
}

#[test]
fn reset_script_reissues_the_write() {
    assert_eq!(
        reset_script_contents(Param::SensMult, Fpt(12884901888)),
        "echo 12884901888 > /sys/module/maccel/parameters/SENS_MULT;"
    );
    assert_eq!(
        reset_script_contents(Param::OffsetNatural, Fpt(-1)),
        "echo -1 > /sys/module/maccel/parameters/OFFSET;"
    );
}
