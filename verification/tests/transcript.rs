use lambdaworks_stark::transcript::Transcript;

#[test]
fn field_challenges_follow_from_what_was_absorbed() {
    let mut t = Transcript::new();
    t.absorb_field(7);
    assert_eq!(t.challenge_field(), 1455346513);
    assert_eq!(t.challenge_field(), 1506714682);
}

#[test]
fn index_challenge_is_below_the_bound() {
    let mut t = Transcript::new();
    t.absorb(&[1, 2, 3]);
    assert_eq!(t.challenge_index(1000), 797);
    for bound in 1..50usize {
        assert!(t.challenge_index(bound) < bound);
    }
}

#[test]
fn same_inputs_give_the_same_challenges() {
    let mut a = Transcript::new();
    let mut b = Transcript::new();
    a.absorb_fields(&[1, 2, 3]);
    b.absorb_field(1);
    b.absorb_field(2);
    b.absorb_field(3);
    assert_eq!(a.challenge_fields(5), b.challenge_fields(5));
    assert_eq!(a.challenge_index(1 << 20), b.challenge_index(1 << 20));
}

#[test]
fn different_inputs_give_different_challenges() {
    let mut a = Transcript::new();
    let mut b = Transcript::new();
    a.absorb_field(1);
    b.absorb_field(2);
    assert_ne!(a.challenge_field(), b.challenge_field());
}

#[test]
fn squeeze_keeps_the_digest_as_state() {
    let mut t = Transcript::new();
    t.absorb(b"abc");
    let d = t.squeeze();
    assert_eq!(d.len(), 32);
    assert_eq!(t.state, d);
    assert_eq!(d[0], 0x3a);
    assert_eq!(d[31], 0x32);
}
