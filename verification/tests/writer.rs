use spikenorm::factors::scaling_factors;
use spikenorm::scale::{join_scales, Scale};
use spikenorm::writer::factor_file;

fn scales(values: &[f64]) -> Vec<Scale> {
    values.iter().map(|v| Scale::new(v.to_bits(), &v.to_string()).unwrap()).collect()
}

#[test]
fn the_factor_file_has_one_value_on_each_line() {
    assert_eq!(factor_file(&scales(&[0.5, 0.25, 1.0])), "0.5\n0.25\n1\n");
}

#[test]
fn the_factor_file_of_an_empty_batch_is_empty() {
    assert_eq!(factor_file(&Vec::new()), "");
}

#[test]
fn the_factor_file_of_one_sample_is_one_line() {
    assert_eq!(factor_file(&scales(&[1.0])), "1\n");
}

#[test]
fn the_factor_file_keeps_the_order_of_the_samples() {
    let text = factor_file(&scales(&[0.75, 1.0, 0.5, 1.0, 0.125]));
    let lines: Vec<&str> = text.lines().collect();
    assert_eq!(lines, vec!["0.75", "1", "0.5", "1", "0.125"]);
    assert!(text.ends_with('\n'));
}

#[test]
fn factors_read_back_from_the_file_are_the_factors_written() {
    let values = [812.25, 77.5, 1e9, 3.0, 3e-7, 41.0, 1.0 / 3.0];
    let counts: Vec<u64> = values.iter().map(|v| f64::to_bits(*v)).collect();
    let factors = scaling_factors(&Some(counts), values.len()).unwrap();
    let numerals: Vec<String> = factors.iter().map(|b| f64::from_bits(*b).to_string()).collect();
    let text = factor_file(&join_scales(&factors, &numerals).unwrap());
    let read: Vec<u64> = text.lines().map(|line| line.parse::<f64>().unwrap().to_bits()).collect();
    assert_eq!(read, factors);
}
