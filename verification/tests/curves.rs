use gamma_tables::compose::{compose, scale_u16_to_u8_range};
use gamma_tables::curve::{compose_curves, parse_curves, parse_u16_curve_vec, saved_in_linear_light};
use gamma_tables::error::CurveError;

fn ramp_block() -> String {
    let mut values: Vec<String> = Vec::new();
    for i in 0..256u32 {
        values.push(format!("{:.6}", i as f64 / 255.0));
    }
    values.join(" ")
}

fn curve_file(blocks: &[String]) -> String {
    let mut text = String::from("# GIMP curves tool settings\n\n(time 0)\n(linear no)\n");
    for block in blocks {
        text.push_str("(channel value)\n(curve\n    (curve-type smooth)\n    (n-points 2)\n");
        text.push_str("    (points 4 0 0 1 1)\n    (n-samples 256)\n");
        text.push_str(&format!("    (samples 256 {}))\n", block));
    }
    text.push_str("\n# end of curves tool settings\n");
    text
}

#[test]
fn scale_cuts_the_fraction_off() {
    assert_eq!(scale_u16_to_u8_range(0), 0);
    assert_eq!(scale_u16_to_u8_range(256), 0);
    assert_eq!(scale_u16_to_u8_range(257), 1);
    assert_eq!(scale_u16_to_u8_range(513), 1);
    assert_eq!(scale_u16_to_u8_range(514), 2);
    assert_eq!(scale_u16_to_u8_range(65534), 254);
    assert_eq!(scale_u16_to_u8_range(65535), 255);
}

#[test]
fn sample_list_is_scaled_and_rounded() {
    assert_eq!(
        parse_u16_curve_vec("0.0 0.5 1.0 0.1 0.003922"),
        Ok(vec![0, 32768, 65535, 6554, 257])
    );
}

#[test]
fn identity_curves_compose_to_identity() {
    let ramp = ramp_block();
    let text = curve_file(&[ramp.clone(), ramp.clone(), ramp.clone(), ramp.clone()]);
    let tables = parse_curves(text).unwrap();
    let expected: Vec<u16> = (0..256u32).map(|i| (i * 257) as u16).collect();
    assert_eq!(tables, vec![expected.clone(), expected.clone(), expected]);
}

#[test]
fn three_blocks_are_too_few() {
    let ramp = ramp_block();
    let text = curve_file(&[ramp.clone(), ramp.clone(), ramp]);
    assert_eq!(parse_curves(text), Err(CurveError::CountTooLow));
}

#[test]
fn compose_looks_up_the_master_curve() {
    let master: Vec<u16> = (0..256u32).map(|i| (65535 - i * 257) as u16).collect();
    let channel: Vec<u16> = vec![0, 256, 257, 65535];
    assert_eq!(compose(&master, &channel), vec![65535, 65535, 65278, 0]);
    let blocks = vec![String::from("0 1")];
    assert_eq!(compose_curves(&blocks), Err(CurveError::CountTooLow));
}

#[test]
fn sample_list_is_cut_at_single_spaces() {
    assert_eq!(parse_u16_curve_vec("1"), Ok(vec![65535]));
    assert_eq!(parse_u16_curve_vec(""), Err(CurveError::MalformedNumber));
    assert_eq!(parse_u16_curve_vec("0.1  0.2"), Err(CurveError::MalformedNumber));
    assert_eq!(parse_u16_curve_vec(" 0.1"), Err(CurveError::MalformedNumber));
    assert_eq!(parse_u16_curve_vec("0.1 "), Err(CurveError::MalformedNumber));
    assert_eq!(parse_u16_curve_vec("0.1\t0.2"), Err(CurveError::MalformedNumber));
    assert_eq!(parse_u16_curve_vec("0.1 x 0.2"), Err(CurveError::MalformedNumber));
    assert_eq!(parse_u16_curve_vec("0.1 0.2"), Ok(vec![6554, 13107]));
}

#[test]
fn same_curves_give_same_tables() {
    let ramp = ramp_block();
    let text = curve_file(&[ramp.clone(), ramp.clone(), ramp.clone(), ramp]);
    assert_eq!(parse_curves(text.clone()), parse_curves(text));
}

#[test]
fn channel_curves_are_looked_up_in_the_master_curve() {
    let mut master: Vec<String> = Vec::new();
    for i in 0..256u32 {
        master.push(format!("{:.6}", (255 - i) as f64 / 255.0));
    }
    let red = String::from("0 0.5 1");
    let green = String::from("0.003921 0.003922 0.00786");
    let blue = String::from("1.0");
    let text = curve_file(&[master.join(" "), red, green, blue]);
    let tables = parse_curves(text).unwrap();
    assert_eq!(tables.len(), 3);
    // 0.5 is sample 32768, whose projection is 127: entry 127 of the master
    assert_eq!(tables[0], vec![65535, 128 * 257, 0]);
    // samples 257, 257 and 515: projections 1, 1 and 2
    assert_eq!(tables[1], vec![254 * 257, 254 * 257, 253 * 257]);
    assert_eq!(tables[2], vec![0]);
}

#[test]
fn a_fifth_block_is_not_read() {
    let ramp = ramp_block();
    let text = curve_file(&[
        ramp.clone(),
        ramp.clone(),
        ramp.clone(),
        ramp.clone(),
        String::from("not numbers"),
    ]);
    let expected: Vec<u16> = (0..256u32).map(|i| (i * 257) as u16).collect();
    assert_eq!(parse_curves(text), Ok(vec![expected.clone(), expected.clone(), expected]));
}

#[test]
fn lines_may_end_in_carriage_return_and_line_feed() {
    let ramp = ramp_block();
    let text = curve_file(&[ramp.clone(), ramp.clone(), ramp.clone(), ramp]).replace("\n", "\r\n");
    let expected: Vec<u16> = (0..256u32).map(|i| (i * 257) as u16).collect();
    assert_eq!(parse_curves(text), Ok(vec![expected.clone(), expected.clone(), expected]));
}

#[test]
fn master_curve_must_hold_256_samples() {
    let ramp = ramp_block();
    let short = ramp[..ramp.rfind(' ').unwrap()].to_string();
    let text = curve_file(&[short, ramp.clone(), ramp.clone(), ramp.clone()]);
    assert_eq!(parse_curves(text), Err(CurveError::MasterLengthMismatch));
    let long = format!("{} 1.0", ramp);
    let text = curve_file(&[long, ramp.clone(), ramp.clone(), ramp]);
    assert_eq!(parse_curves(text), Err(CurveError::MasterLengthMismatch));
}

#[test]
fn malformed_samples_are_reported() {
    let ramp = ramp_block();
    let bad = ramp.replacen("0.003922", "0.00392x", 1);
    let text = curve_file(&[bad.clone(), ramp.clone(), ramp.clone(), ramp.clone()]);
    assert_eq!(parse_curves(text), Err(CurveError::MalformedNumber));
    let text = curve_file(&[ramp.clone(), ramp.clone(), ramp.clone(), bad]);
    assert_eq!(parse_curves(text), Err(CurveError::MalformedNumber));
}

#[test]
fn errors_come_in_order() {
    let blocks = vec![String::from("x"), String::from("y"), String::from("z")];
    assert_eq!(compose_curves(&blocks), Err(CurveError::CountTooLow));
    let blocks = vec![String::from("0 1"), String::from("y"), String::from("1"), String::from("1")];
    assert_eq!(compose_curves(&blocks), Err(CurveError::MasterLengthMismatch));
    let blocks = vec![String::from("0 q"), String::from("1"), String::from("1"), String::from("1")];
    assert_eq!(compose_curves(&blocks), Err(CurveError::MalformedNumber));
}

#[test]
fn only_whole_lines_with_a_block_are_found() {
    let ramp = ramp_block();
    let mut text = String::new();
    text.push_str(&format!("(samples 256 {}))\n", ramp));
    text.push_str(&format!("x (samples 256 {}))\n", ramp));
    text.push_str(&format!("(samples 256 {})) \n", ramp));
    text.push_str(&format!("(samples {}))\n", ramp));
    text.push_str(&format!("        (samples 3 {}))\n", ramp));
    text.push_str(&format!("(samples 256 {})\n", ramp));
    text.push_str(&format!("(samples 256 {}))", ramp));
    // three lines match: the first, the fifth and the last
    assert_eq!(parse_curves(text.clone()), Err(CurveError::CountTooLow));
    text.push_str(&format!("\n  (samples 0 {}))\n", ramp));
    assert!(parse_curves(text).is_ok());
}

#[test]
fn linear_light_is_noticed() {
    assert!(saved_in_linear_light("(time 0)\n(linear yes)\n(channel value)"));
    assert!(!saved_in_linear_light("(time 0)\n(linear no)\n(channel value)"));
    assert!(!saved_in_linear_light(""));
    assert!(saved_in_linear_light("linear yes"));
    assert!(!saved_in_linear_light("linear ye"));
}

#[test]
fn every_float_is_a_sample() {
    assert_eq!(
        parse_u16_curve_vec("1e1001 1e-1001 inf -inf nan Infinity 0.5757"),
        Ok(vec![65535, 0, 65535, 0, 0, 65535, 37729])
    );
    let ramp = ramp_block();
    let blocks = vec![ramp, String::from("1e1001"), String::from("nan"), String::from("1e-1001")];
    assert_eq!(compose_curves(&blocks), Ok(vec![vec![65535], vec![0], vec![0]]));
}

#[test]
fn samples_keep_the_order_of_the_floats() {
    assert_eq!(parse_u16_curve_vec("0.50000001 0.49999999"), Ok(vec![32768, 32768]));
    let parsed = parse_u16_curve_vec("0 1e-7 0.0000038 0.00001 0.1 0.5 0.5757 0.99999 1 2 inf").unwrap();
    assert!(parsed.windows(2).all(|w| w[0] <= w[1]));
}
