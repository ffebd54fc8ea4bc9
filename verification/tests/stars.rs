use sky_clock::sky::NUM_LEDS;
use sky_clock::stars::StarField;

fn glow_of(v: u8, i: usize) -> u8 {
    let mut lit = [None; NUM_LEDS];
    lit[i] = Some(v);
    let mut field = StarField::new(&lit);
    field.twinkle()[i]
}

#[test]
fn new_field_has_the_given_states() {
    let mut lit = [None; NUM_LEDS];
    lit[0] = Some(7);
    lit[50] = Some(255);
    lit[143] = Some(1);
    let field = StarField::new(&lit);
    for i in 0..NUM_LEDS {
        assert_eq!(field.state[i], lit[i].unwrap_or(0));
        assert_eq!(field.is_dark(i), lit[i].is_none());
    }
}

#[test]
fn glow_rises_and_fades() {
    assert_eq!(glow_of(0, 0), 0);
    assert_eq!(glow_of(1, 0), 1);
    assert_eq!(glow_of(17, 0), 17);
    assert_eq!(glow_of(127, 0), 127);
    assert_eq!(glow_of(128, 0), 128);
    assert_eq!(glow_of(129, 0), 127);
    assert_eq!(glow_of(240, 0), 16);
    assert_eq!(glow_of(254, 0), 2);
    assert_eq!(glow_of(255, 0), 1);
    for v in 1..=255u8 {
        assert_eq!(glow_of(v, 143), glow_of((256 - v as u32) as u8, 143));
        assert!(glow_of(v, 143) >= 1 && glow_of(v, 143) <= 128);
    }
}

#[test]
fn a_single_star_leaves_the_others_dark() {
    for (v, shown) in [(129u8, 127u8), (255, 1)] {
        let mut lit = [None; NUM_LEDS];
        lit[0] = Some(v);
        let twinkle = StarField::new(&lit).twinkle();
        assert_eq!(twinkle[0], shown);
        for i in 1..NUM_LEDS {
            assert_eq!(twinkle[i], 0);
        }
    }
}

#[test]
fn blocked_stars_go_out() {
    let mut field = StarField::new(&[Some(200); NUM_LEDS]);
    let twinkle = field.twinkle();
    for i in 0..NUM_LEDS {
        let blocked = i > 36 && i < 72;
        assert_eq!(field.state[i], if blocked { 0 } else { 200 });
        assert_eq!(twinkle[i], if blocked { 0 } else { 56 });
    }
}

#[test]
fn a_star_at_its_end_is_shown_once_more() {
    let mut lit = [None; NUM_LEDS];
    lit[0] = Some(255);
    let mut field = StarField::new(&lit);
    assert_eq!(field.twinkle()[0], 1);
    assert!(field.is_dark(0));
    assert_eq!(field.twinkle()[0], 0);
}

#[test]
fn a_lit_star_ignores_the_draws() {
    let mut lit = [None; NUM_LEDS];
    lit[10] = Some(250);
    let mut field = StarField::new(&lit);
    let mut states = Vec::new();
    for _ in 0..7 {
        field.twinkle();
        field.advance(&[true; NUM_LEDS]);
        states.push(field.state[10]);
    }
    assert_eq!(states, vec![251, 252, 253, 254, 255, 1, 2]);
}

#[test]
fn an_ignited_star_that_is_blocked_never_shows() {
    let mut field = StarField::new(&[None; NUM_LEDS]);
    for _ in 0..5 {
        field.advance(&[true; NUM_LEDS]);
        assert_eq!(field.state[50], 1);
        assert_eq!(field.twinkle()[50], 0);
        assert_eq!(field.state[50], 0);
    }
}

#[test]
fn a_star_lives_once() {
    let mut lit = [None; NUM_LEDS];
    lit[10] = Some(250);
    let mut field = StarField::new(&lit);
    let mut states = Vec::new();
    for _ in 0..8 {
        field.twinkle();
        field.advance(&[false; NUM_LEDS]);
        states.push(field.state[10]);
    }
    assert_eq!(states, vec![251, 252, 253, 254, 255, 0, 0, 0]);
}

#[test]
fn dark_stars_are_ignited() {
    let mut lit = [None; NUM_LEDS];
    lit[1] = Some(5);
    lit[2] = Some(255);
    let mut field = StarField::new(&lit);
    let mut ignite = [false; NUM_LEDS];
    ignite[0] = true;
    ignite[1] = true;
    field.advance(&ignite);
    assert_eq!(field.state[0], 1);
    assert_eq!(field.state[1], 6);
    assert_eq!(field.state[2], 1);
    assert_eq!(field.state[3], 0);
}
