use path_tracer::checker::{checker_side, CheckerSide, Sign};

const SIGNS: [Sign; 2] = [Sign::Negative, Sign::Positive];

#[test]
fn negative_product_is_odd() {
    assert_eq!(checker_side(Sign::Negative, Sign::Positive, Sign::Positive), CheckerSide::Odd);
    assert_eq!(checker_side(Sign::Negative, Sign::Negative, Sign::Negative), CheckerSide::Odd);
    assert_eq!(checker_side(Sign::Positive, Sign::Positive, Sign::Negative), CheckerSide::Odd);
}

#[test]
fn positive_product_is_even() {
    assert_eq!(checker_side(Sign::Positive, Sign::Positive, Sign::Positive), CheckerSide::Even);
    assert_eq!(checker_side(Sign::Negative, Sign::Negative, Sign::Positive), CheckerSide::Even);
}

#[test]
fn zero_product_is_even() {
    assert_eq!(checker_side(Sign::Zero, Sign::Negative, Sign::Positive), CheckerSide::Even);
    assert_eq!(checker_side(Sign::Negative, Sign::Negative, Sign::Zero), CheckerSide::Even);
}

#[test]
fn one_sign_change_alternates() {
    let flip = |s: Sign| if s == Sign::Negative { Sign::Positive } else { Sign::Negative };
    for x in SIGNS {
        for y in SIGNS {
            for z in SIGNS {
                let here = checker_side(x, y, z);
                assert_ne!(checker_side(flip(x), y, z), here);
                assert_ne!(checker_side(x, flip(y), z), here);
                assert_ne!(checker_side(x, y, flip(z)), here);
                assert_eq!(checker_side(x, y, z), here);
            }
        }
    }
}

#[test]
fn signs_of_sines_pick_the_child() {
    let sign = |v: f64| if v < 0.0 { Sign::Negative } else if v > 0.0 { Sign::Positive } else { Sign::Zero };
    let side = |x: f64, y: f64, z: f64| {
        checker_side(sign((10.0 * x).sin()), sign((10.0 * y).sin()), sign((10.0 * z).sin()))
    };
    // sin(10x) changes sign at x = pi / 10.
    assert_eq!(side(0.1, 0.1, 0.1), CheckerSide::Even);
    assert_eq!(side(0.4, 0.1, 0.1), CheckerSide::Odd);
    assert_eq!(side(0.1, 0.2, 0.05), side(0.15, 0.1, 0.2));
}
