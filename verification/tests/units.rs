use svgopt::units::is_zero_length_exec;

fn zero(s: &str) -> bool {
    is_zero_length_exec(&s.to_string())
}

#[test]
fn test_zero_lengths() {
    for s in ["0", "0px", "0.0", "-0", "+0.00mm", ".0", "0.", "00pt", "0in", "0cm", "0pc"] {
        assert!(zero(s), "{} is a zero length", s);
    }
}

#[test]
fn test_lengths_that_are_not_zero() {
    for s in ["", "1", "0.5", "10px", ".", "-", "0..0", "0%", "0em", "0 px", "px", "0px0", "--0"] {
        assert!(!zero(s), "{} is not a zero length", s);
    }
}
