use cumulo_web::rng::{Lcg, LCG_A, LCG_C, LCG_M};

#[test]
fn lcg_starts_at_one_and_steps_exactly() {
    let mut g = Lcg::new();
    assert_eq!(g.state(), 1);
    assert_eq!(g.advance(), 1_015_568_748);
    let mut s: u64 = 1_015_568_748;
    for _ in 0..1000 {
        s = (LCG_A.wrapping_mul(s).wrapping_add(LCG_C)) % LCG_M;
        assert_eq!(g.advance(), s);
        assert!(g.state() < LCG_M);
    }
}

#[test]
fn lcg_is_the_same_on_every_run() {
    let mut a = Lcg::new();
    let mut b = Lcg::new();
    for _ in 0..10 {
        assert_eq!(a.advance(), b.advance());
    }
}
