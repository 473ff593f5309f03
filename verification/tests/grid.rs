use julia_set::{generate_input_set, ComplexPoint};

/// Lays the grid over a region given by its four bounds, in double precision:
/// the aspect ratio decides the step sizes and how many points a row holds.
fn sample_region(top: f64, left: f64, bot: f64, right: f64, width: u64) -> Vec<ComplexPoint<f64>> {
    let ratio: f64 = (top.abs() + bot.abs()) / (left.abs() + right.abs());
    let real_step: f64 = (top.abs() + bot.abs()) / width as f64;
    let imag_step: f64 = (left.abs() + right.abs()) / (width as f64 / ratio);
    let height = (width as f64 / ratio) as u64;
    generate_input_set(top, left, real_step, imag_step, width, height, |a: f64, b: f64| a + b)
}

fn int_plus(a: i64, b: i64) -> i64 {
    a + b
}

#[test]
fn test_gen() {
    let output = sample_region(-2.0, -2.0, 2.0, 2.0, 10);
    println!("Output: {:?}", output);
}

#[test]
fn square_region_has_width_squared_points() {
    let output = sample_region(-2.0, -2.0, 2.0, 2.0, 10);
    assert_eq!(output.len(), 100);
}

#[test]
fn first_row_starts_at_left_one_step_past_top() {
    let output = sample_region(-2.0, -2.0, 2.0, 2.0, 10);
    assert_eq!(output[0].im, -2.0);
    for col in 0..10 {
        assert_eq!(output[col].re, -2.0 + 0.4);
        assert_eq!(output[col].re, -1.6);
    }
    assert_ne!(output[10].re, output[0].re);
}

#[test]
fn every_row_restarts_at_left() {
    let output = sample_region(-2.0, -2.0, 2.0, 2.0, 10);
    for row in 0..10 {
        assert_eq!(output[row * 10].im, -2.0);
        for col in 0..10 {
            assert_eq!(output[row * 10 + col].re, output[row * 10].re);
            assert_eq!(output[row * 10 + col].im, output[col].im);
        }
    }
}

#[test]
fn coordinates_accumulate_step_by_step() {
    let output = sample_region(-2.0, -2.0, 2.0, 2.0, 10);
    let reals = [
        -1.6,
        -1.2000000000000002,
        -0.8000000000000002,
        -0.40000000000000013,
        -1.1102230246251565e-16,
        0.3999999999999999,
        0.7999999999999999,
        1.2,
        1.6,
        2.0,
    ];
    let imags = [
        -2.0,
        -1.6,
        -1.2000000000000002,
        -0.8000000000000002,
        -0.40000000000000013,
        -1.1102230246251565e-16,
        0.3999999999999999,
        0.7999999999999999,
        1.2,
        1.6,
    ];
    for row in 0..10 {
        for col in 0..10 {
            assert_eq!(output[row * 10 + col], ComplexPoint { re: reals[row], im: imags[col] });
        }
    }
}

#[test]
fn length_over_width_gives_back_the_row_length() {
    let tall = sample_region(-2.0, -1.0, 2.0, 1.0, 10);
    assert_eq!(tall.len(), 50);
    assert_eq!(tall.len() / 10, 5);
    let wide = sample_region(-1.0, -2.0, 1.0, 2.0, 10);
    assert_eq!(wide.len(), 200);
    assert_eq!(wide.len() / 10, 20);
}

#[test]
fn non_square_region_steps() {
    let tall = sample_region(-2.0, -1.0, 2.0, 1.0, 10);
    assert_eq!(tall[0], ComplexPoint { re: -1.6, im: -1.0 });
    assert_eq!(tall[1], ComplexPoint { re: -1.6, im: -1.0 + 0.4 });
    assert_eq!(tall[4].re, -1.6);
    assert_eq!(tall[5], ComplexPoint { re: -1.6 + 0.4, im: -1.0 });
    let wide = sample_region(-1.0, -2.0, 1.0, 2.0, 10);
    assert_eq!(wide[0], ComplexPoint { re: -0.8, im: -2.0 });
    assert_eq!(wide[1], ComplexPoint { re: -0.8, im: -2.0 + 0.2 });
    assert_eq!(wide[20], ComplexPoint { re: -0.8 + 0.2, im: -2.0 });
}

#[test]
fn extreme_aspect_ratio_gives_an_empty_grid() {
    let output = sample_region(-100.0, -1.0, 100.0, 1.0, 10);
    assert!(output.is_empty());
}

#[test]
fn no_columns_means_no_points() {
    let output = generate_input_set(0i64, 0i64, 1i64, 1i64, 7, 0, int_plus);
    assert_eq!(output.len(), 0);
}

#[test]
fn no_rows_means_no_points() {
    let output = generate_input_set(0i64, 0i64, 1i64, 1i64, 0, 7, int_plus);
    assert_eq!(output.len(), 0);
}

#[test]
fn single_cell_grid() {
    let output = generate_input_set(5i64, 9i64, 3i64, 4i64, 1, 1, int_plus);
    assert_eq!(output, vec![ComplexPoint { re: 8, im: 9 }]);
}

#[test]
fn integer_grid_is_row_major() {
    let output = generate_input_set(0i64, 10i64, 1i64, 2i64, 2, 3, int_plus);
    assert_eq!(
        output,
        vec![
            ComplexPoint { re: 1, im: 10 },
            ComplexPoint { re: 1, im: 12 },
            ComplexPoint { re: 1, im: 14 },
            ComplexPoint { re: 2, im: 10 },
            ComplexPoint { re: 2, im: 12 },
            ComplexPoint { re: 2, im: 14 },
        ]
    );
}

#[test]
fn grid_uses_the_addition_it_is_given() {
    let output = generate_input_set(1i64, 1i64, 2i64, 3i64, 3, 3, |a: i64, b: i64| a * b);
    assert_eq!(
        output,
        vec![
            ComplexPoint { re: 2, im: 1 },
            ComplexPoint { re: 2, im: 3 },
            ComplexPoint { re: 2, im: 9 },
            ComplexPoint { re: 4, im: 1 },
            ComplexPoint { re: 4, im: 3 },
            ComplexPoint { re: 4, im: 9 },
            ComplexPoint { re: 8, im: 1 },
            ComplexPoint { re: 8, im: 3 },
            ComplexPoint { re: 8, im: 9 },
        ]
    );
}

#[test]
fn sampling_twice_gives_the_same_grid() {
    let first = sample_region(-2.0, -1.5, 2.0, 1.5, 12);
    let second = sample_region(-2.0, -1.5, 2.0, 1.5, 12);
    assert_eq!(first, second);
}

#[test]
fn points_are_plain_copies() {
    let p = ComplexPoint { re: 1.5, im: -0.5 };
    let q = p;
    let r = p.clone();
    assert_eq!(p, q);
    assert_eq!(p, r);
    assert_eq!(format!("{:?}", p), "ComplexPoint { re: 1.5, im: -0.5 }");
}
