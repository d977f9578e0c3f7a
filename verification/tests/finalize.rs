use circuits::context::{Context, Var};
use circuits::field::{qm31_from_u32s, QM31};
use circuits::finalize::{finalize_context, next_power_of_two};
use circuits::ops::{guess, output};

// Not a power of 2 so that component padding is exercised.
const N: usize = 1030;

fn build_fibonacci_context_with_n(n: usize) -> Context {
    let mut context = Context::default();

    let (mut a, mut b): (Var, Var) = (guess(&mut context, QM31::zero()), guess(&mut context, QM31::one()));
    for _ in 2..n {
        (a, b) = (b, circuits::ops::add(&mut context, a, b));
    }

    if n == N {
        assert_eq!(context.get(b), qm31_from_u32s(809871181, 0, 0, 0));
    }
    output(&mut context, b);

    context
}

fn build_fibonacci_context() -> Context {
    build_fibonacci_context_with_n(N)
}

#[test]
fn test_finalize_context() {
    let mut context = build_fibonacci_context();
    finalize_context(&mut context);

    assert!(context.circuit.add.len().is_power_of_two());
    assert!(context.is_circuit_valid());
}

#[test]
fn finalize_pads_every_component_to_a_power_of_two() {
    let mut context = build_fibonacci_context_with_n(20);
    let n_outputs = context.circuit.output.len();
    finalize_context(&mut context);
    assert_eq!(context.circuit.add.len(), 32);
    assert_eq!(context.circuit.eq.len(), 16);
    assert_eq!(context.circuit.poseidon.len(), 16);
    assert_eq!(context.circuit.output.len(), n_outputs + 1);
    assert!(context.is_circuit_valid());
}

#[test]
fn finalize_keeps_an_invalid_circuit_invalid() {
    let mut context = Context::default();
    let a = guess(&mut context, qm31_from_u32s(1, 0, 0, 0));
    let b = guess(&mut context, qm31_from_u32s(2, 0, 0, 0));
    circuits::ops::eq(&mut context, a, b);
    finalize_context(&mut context);
    assert!(!context.is_circuit_valid());
    assert_eq!(context.circuit.eq.len(), 16);
}

#[test]
fn next_power_of_two_values() {
    assert_eq!(next_power_of_two(0), 1);
    assert_eq!(next_power_of_two(1), 1);
    assert_eq!(next_power_of_two(2), 2);
    assert_eq!(next_power_of_two(3), 4);
    assert_eq!(next_power_of_two(1030), 2048);
    assert_eq!(next_power_of_two(1024), 1024);
}

#[test]
fn zk_blinding_keeps_validity_and_adds_gates() {
    let mut context = build_fibonacci_context_with_n(10);
    let adds = context.circuit.add.len();
    let eqs = context.circuit.eq.len();
    circuits::finalize::add_zk_blinding(&mut context, [7u8; 32], 3);
    assert_eq!(context.circuit.add.len(), adds + 12);
    assert_eq!(context.circuit.eq.len(), eqs + 3);
    assert!(context.is_circuit_valid());

    let mut other = build_fibonacci_context_with_n(10);
    circuits::finalize::add_zk_blinding(&mut other, [7u8; 32], 3);
    assert_eq!(context.values(), other.values());
}

#[test]
fn padding_gates_work_on_zero() {
    let mut context = build_fibonacci_context_with_n(20);
    let (n_eq, n_add, n_poseidon) =
        (context.circuit.eq.len(), context.circuit.add.len(), context.circuit.poseidon.len());
    finalize_context(&mut context);
    let zero = QM31::zero();
    for g in &context.circuit.eq[n_eq..] {
        assert_eq!(g.in0, g.in1);
        assert_eq!(context.values()[g.in0], zero);
    }
    for g in &context.circuit.add[n_add..] {
        assert_eq!(g.in0, g.in1);
        assert_eq!(context.values()[g.in0], zero);
    }
    // Two constants (zero and one) take one hash gate; the rest is padding.
    for g in &context.circuit.poseidon[n_poseidon + 1..] {
        assert_eq!(g.in0, g.in1);
        assert_eq!(context.values()[g.in0], zero);
    }
}

#[test]
fn zk_blinding_values_are_the_seed_stream() {
    use_stream_check([3u8; 32], 2);
    use_stream_check([200u8; 32], 1);
}

fn use_stream_check(seed: [u8; 32], n: usize) {
    let mut context = build_fibonacci_context_with_n(5);
    let adds = context.circuit.add.len();
    let vars = context.values().len();
    circuits::finalize::add_zk_blinding(&mut context, seed, n);
    let mut rng = <rand_chacha::ChaCha20Rng as rand_chacha::rand_core::SeedableRng>::from_seed(seed);
    let mut next = || rand_chacha::rand_core::Rng::next_u32(&mut rng);
    for j in 0..n {
        let g = &context.circuit.add[adds + 4 * j..adds + 4 * j + 4];
        for v in [g[0].out, g[1].out, g[3].out] {
            let expected = qm31_from_u32s(next(), next(), next(), next());
            assert_eq!(context.values()[v], expected);
            assert!(v >= vars);
        }
        assert_eq!(context.values()[g[2].out], context.values()[g[0].out].add(context.values()[g[1].out]));
    }
    // The Fibonacci context has no constants, so blinding adds the zero constant.
    assert_eq!(context.values().len(), vars + 4 * n + 1);
}

#[test]
fn zk_blinding_of_nothing_changes_nothing() {
    let mut context = build_fibonacci_context_with_n(5);
    let before = context.values().clone();
    let adds = context.circuit.add.len();
    circuits::finalize::add_zk_blinding(&mut context, [9u8; 32], 0);
    assert_eq!(context.values(), &before);
    assert_eq!(context.circuit.add.len(), adds);
}

#[test]
fn guessed_variables_are_yielded_by_adding_zero() {
    let mut context = Context::default();
    let a = guess(&mut context, qm31_from_u32s(5, 0, 0, 0));
    let b = guess(&mut context, qm31_from_u32s(0, 0, 0, 0));
    let adds = context.circuit.add.len();
    context.finalize_guessed_vars();
    assert!(context.guessed.is_empty());
    let zero = context.zero();
    assert_eq!(context.circuit.add.len(), adds + 2);
    for (g, v) in context.circuit.add[adds..].iter().zip([a, b]) {
        assert_eq!((g.in0, g.in1, g.out), (v.idx, zero.idx, v.idx));
    }
}

#[test]
fn zk_blinding_is_deterministic() {
    let mut x = build_fibonacci_context_with_n(6);
    let mut y = build_fibonacci_context_with_n(6);
    circuits::finalize::add_zk_blinding(&mut x, [11u8; 32], 2);
    circuits::finalize::add_zk_blinding(&mut y, [11u8; 32], 2);
    assert_eq!(x.values(), y.values());
    let gates = |c: &Context| c.circuit.add.iter().map(|g| (g.in0, g.in1, g.out)).collect::<Vec<_>>();
    assert_eq!(gates(&x), gates(&y));
    assert_eq!(x.circuit.eq.len(), y.circuit.eq.len());
}
