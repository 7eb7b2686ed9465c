use skiplist::level::next_level;
use skiplist::{rand_lvl, MAX_LEVEL};

#[test]
fn max_level_is_twenty() {
    assert_eq!(MAX_LEVEL, 20);
}

#[test]
fn heads_climbs_and_tails_stops() {
    assert_eq!(next_level(1, 0), (2, true));
    assert_eq!(next_level(1, 1), (1, false));
    assert_eq!(next_level(7, 4), (8, true));
    assert_eq!(next_level(7, 5), (7, false));
    assert_eq!(next_level(19, usize::MAX - 1), (20, true));
    assert_eq!(next_level(19, usize::MAX), (19, false));
}

#[test]
fn no_climb_beyond_the_cap() {
    assert_eq!(next_level(MAX_LEVEL, 0), (MAX_LEVEL, false));
    assert_eq!(next_level(MAX_LEVEL, 1), (MAX_LEVEL, false));
}

#[test]
fn drawn_heights_stay_in_range() {
    for _ in 0..20000 {
        let h = rand_lvl();
        assert!(h >= 1);
        assert!(h <= MAX_LEVEL);
    }
}

#[test]
fn drawn_heights_halve_from_level_to_level() {
    let draws: usize = 40000;
    let mut count = [0usize; 21];
    for _ in 0..draws {
        count[rand_lvl()] += 1;
    }
    // Height h has probability 2^-h: 20000, 10000 and 5000 draws are
    // expected for heights 1, 2 and 3.
    assert!(count[1] > 18000 && count[1] < 22000);
    assert!(count[2] > 8500 && count[2] < 11500);
    assert!(count[3] > 4000 && count[3] < 6000);
    assert_eq!(count[0], 0);
    // Draws differ: not every height is the same.
    assert!(count[1] < draws);
}
