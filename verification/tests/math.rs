use mcts::fixed::{isqrt, ln_scaled, log2_scaled, priority_value, DEFAULT_BIAS, SCALE};
use mcts::tree::{Children, Node};
use mcts::LineGame;

#[test]
fn isqrt_values() {
    assert_eq!(isqrt(0), 0);
    assert_eq!(isqrt(1), 1);
    assert_eq!(isqrt(2), 1);
    assert_eq!(isqrt(3), 1);
    assert_eq!(isqrt(4), 2);
    assert_eq!(isqrt(15), 3);
    assert_eq!(isqrt(16), 4);
    assert_eq!(isqrt(1_000_000), 1000);
    assert_eq!(isqrt(u64::MAX), 4294967295);
}

#[test]
fn log2_exact_on_powers_of_two() {
    assert_eq!(log2_scaled(1), 0);
    assert_eq!(log2_scaled(2), SCALE);
    assert_eq!(log2_scaled(1024), 10 * SCALE);
    assert_eq!(log2_scaled(1 << 40), 40 * SCALE);
}

#[test]
fn ln_close_to_reference() {
    assert_eq!(ln_scaled(1), 0);
    for &(n, expect) in &[(2u64, 0.6931472f64), (10, 2.3025851), (1000, 6.9077553)] {
        let got = ln_scaled(n) as f64 / SCALE as f64;
        assert!(
            (got - expect).abs() < 1e-4,
            "ln({}) fixed-point {} vs {}",
            n,
            got,
            expect
        );
    }
}

#[test]
fn default_bias_is_sqrt_two() {
    let got = DEFAULT_BIAS as f64 / SCALE as f64;
    assert!((got - 2.0f64.sqrt()).abs() < 1e-5);
}

#[test]
fn priority_reference_value() {
    // Three half-point wins over four visits under a parent visited ten
    // times, with the default exploration constant:
    // 0.75 + sqrt(2) * sqrt(ln(10) / 4), about 1.8229.
    let p = priority_value(6, 4, 10, DEFAULT_BIAS);
    let got = p as f64 / SCALE as f64;
    let expect = 0.75 + 2.0f64.sqrt() * (10.0f64.ln() / 4.0).sqrt();
    assert!((got - expect).abs() < 1e-4, "priority {} vs {}", got, expect);
}

#[test]
fn priority_infinite_iff_unvisited() {
    let game = LineGame::new();
    let unvisited = Node {
        game,
        prev_act: 0u8,
        visits: 0,
        wins: 0,
        children: Children::NotExpanded,
    };
    assert!(unvisited.priority(5).is_none());
    let visited = Node {
        game,
        prev_act: 0u8,
        visits: 4,
        wins: 6,
        children: Children::NotExpanded,
    };
    let p = visited.priority(10);
    assert_eq!(p, Some(priority_value(6, 4, 10, DEFAULT_BIAS)));
}
