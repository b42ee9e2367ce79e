use reverb::delay_line::{adjust_length_to_power_of_two, CircularBuffer, DelayLine};

#[test]
fn test_delay_line() {
    let test_sizes: Vec<usize> = vec![1, 2, 3, 4, 7, 16, 23, 64, 111, 256];
    for size in test_sizes {
        let adjust_size = adjust_length_to_power_of_two(size);
        let mut delay_line: DelayLine<f64> = DelayLine::new(adjust_size);

        assert_eq!(delay_line.size(), adjust_size);

        for i in 0..adjust_size {
            delay_line.push(i as f64);
        }
        assert_eq!(*delay_line.back(), 0.0);

        for i in 0..adjust_size {
            assert_eq!(delay_line.read(i), (adjust_size - 1 - i) as f64);
        }

        delay_line.clear();
        for i in 0..adjust_size {
            assert_eq!(delay_line.read(i), 0.0);
        }
    }
}

#[test]
fn test_wrap_arround() {
    let mut delay_line: DelayLine<f64> = DelayLine::new(2);
    delay_line.push(1.0);
    delay_line.push(2.0);
    delay_line.push(3.0);
    delay_line.push(4.0);
    assert_eq!(delay_line.read(0), 4.0);
    assert_eq!(delay_line.read(1), 3.0);
}

#[test]
fn rounding_to_powers_of_two() {
    assert_eq!(adjust_length_to_power_of_two(0), 1);
    assert_eq!(adjust_length_to_power_of_two(1), 1);
    assert_eq!(adjust_length_to_power_of_two(2), 2);
    assert_eq!(adjust_length_to_power_of_two(3), 4);
    assert_eq!(adjust_length_to_power_of_two(5), 8);
    assert_eq!(adjust_length_to_power_of_two(64), 64);
    assert_eq!(adjust_length_to_power_of_two(65), 128);
    assert_eq!(adjust_length_to_power_of_two(2205), 4096);
    assert_eq!(adjust_length_to_power_of_two(1 << 63), 1 << 63);
}

#[test]
fn new_rounds_capacity_up() {
    let line: DelayLine<f64> = DelayLine::new(0);
    assert_eq!(line.size(), 1);
    let line: DelayLine<f64> = DelayLine::new(5);
    assert_eq!(line.size(), 8);
    let line: DelayLine<i32> = DelayLine::new(100);
    assert_eq!(line.size(), 128);
}

#[test]
fn fresh_line_reads_silence_until_filled() {
    let mut line: DelayLine<f64> = DelayLine::new(4);
    for age in 0..4 {
        assert_eq!(line.read(age), 0.0);
    }
    line.push(5.0);
    line.push(6.0);
    assert_eq!(line.read(0), 6.0);
    assert_eq!(line.read(1), 5.0);
    assert_eq!(line.read(2), 0.0);
    assert_eq!(line.read(3), 0.0);
}

#[test]
fn round_trip_reads_by_age() {
    let mut line: DelayLine<i64> = DelayLine::new(8);
    let values: Vec<i64> = vec![10, 20, 30, 40, 50];
    for v in values.iter() {
        line.push(*v);
    }
    for k in 0..values.len() {
        assert_eq!(line.read(k), values[values.len() - 1 - k]);
    }
}

#[test]
fn wrap_around_keeps_newest_at_age_zero() {
    for m in 0..20usize {
        let mut line: DelayLine<usize> = DelayLine::new(4);
        for v in 0..(4 + m) {
            line.push(v + 100);
        }
        assert_eq!(line.read(0), 4 + m - 1 + 100);
        assert_eq!(*line.back(), m + 100);
    }
}

#[test]
fn neighbors_wrap_from_oldest_to_newest() {
    let mut line: DelayLine<f64> = DelayLine::new(4);
    for v in [1.0, 2.0, 3.0, 4.0] {
        line.push(v);
    }
    assert_eq!(line.neighbors(0), (4.0, 3.0));
    assert_eq!(line.neighbors(1), (3.0, 2.0));
    assert_eq!(line.neighbors(2), (2.0, 1.0));
    assert_eq!(line.neighbors(3), (1.0, 4.0));
    let (a, b) = line.neighbors(1);
    assert_eq!(a * 0.5 + b * 0.5, 2.5);
}

#[test]
fn clear_keeps_capacity_and_cursor() {
    let mut line: DelayLine<i32> = DelayLine::new(4);
    line.push(1);
    line.push(2);
    line.clear();
    assert_eq!(line.size(), 4);
    for age in 0..4 {
        assert_eq!(line.read(age), 0);
    }
    line.push(9);
    assert_eq!(line.read(0), 9);
    assert_eq!(line.read(1), 0);
}
