use circuits::field::{qm31_from_u32s, M31, P, QM31};

fn to_stwo(q: QM31) -> stwo::core::fields::qm31::QM31 {
    stwo::core::fields::qm31::QM31::from_u32_unchecked(q.0.0.0, q.0.1.0, q.1.0.0, q.1.1.0)
}

#[test]
fn m31_operations() {
    assert_eq!(M31(P - 1).add(M31(1)), M31(0));
    assert_eq!(M31(3).sub(M31(5)), M31(P - 2));
    assert_eq!(M31(1 << 16).mul(M31(1 << 16)), M31(2));
    assert_eq!(M31::from_u32(u32::MAX), M31(1));
    assert_eq!(M31::from_usize(P as usize), M31(0));
}

#[test]
fn qm31_operations_agree_with_stwo() {
    let samples = [
        qm31_from_u32s(1, 2, 3, 4),
        qm31_from_u32s(P - 1, 0, 17, P - 2),
        qm31_from_u32s(123456789, 987654321, 5, 2147483000),
        qm31_from_u32s(0, 0, 0, 1),
    ];
    for a in samples {
        for b in samples {
            assert_eq!(to_stwo(a.add(b)), to_stwo(a) + to_stwo(b));
            assert_eq!(to_stwo(a.sub(b)), to_stwo(a) - to_stwo(b));
            assert_eq!(to_stwo(a.mul(b)), to_stwo(a) * to_stwo(b));
        }
    }
}

#[test]
fn qm31_u_squared_is_two_plus_i() {
    let u = qm31_from_u32s(0, 0, 1, 0);
    assert_eq!(u.mul(u), qm31_from_u32s(2, 1, 0, 0));
}

#[test]
fn qm31_from_u32s_reduces() {
    assert_eq!(qm31_from_u32s(P, P + 1, 0, u32::MAX), qm31_from_u32s(0, 1, 0, 1));
}
