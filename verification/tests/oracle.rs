use wordle_crush::Oracle;
use wordle_crush::Reply;
use wordle_crush::Square;

fn marks(reply: &Reply) -> String {
    reply.to_string()
}

#[test]
fn compare_self_is_all_green() {
    let r = Oracle::compare("CRANE", "CRANE");
    assert!(r.all_green());
    for i in 0..5 {
        assert!(r.is_green(i));
    }
    assert!(Oracle::compare("AABBA", "AABBA").all_green());
    assert!(Oracle::compare("ZZZZZ", "ZZZZZ").all_green());
}

#[test]
fn compare_speed_erase_duplicate_letters() {
    let r = Oracle::compare("SPEED", "ERASE");
    assert!(r.is_yellow(0));
    assert!(r.is_gray(1));
    assert!(r.is_yellow(2));
    assert!(r.is_yellow(3));
    assert!(r.is_gray(4));
    assert!(!r.all_green());
    assert_eq!(marks(&r), "Y YY ");
}

#[test]
fn compare_consumes_each_secret_letter_once() {
    // Both E's of the secret are claimed by the green positions, so the
    // middle E's of the guess stay gray.
    let r = Oracle::compare("EEEEE", "ERASE");
    assert_eq!(marks(&r), "G   G");
}

#[test]
fn compare_mixed_marks() {
    let r = Oracle::compare("CRANE", "SLATE");
    assert_eq!(marks(&r), "  G G");
    let r = Oracle::compare("CRANE", "TRACE");
    assert_eq!(marks(&r), "YGG G");
}

#[test]
fn all_gray_reply_has_no_colors() {
    let r = Reply::all_gray();
    for i in 0..5 {
        assert!(r.is_gray(i));
        assert!(!r.is_green(i));
        assert!(!r.is_yellow(i));
    }
    assert!(!r.all_green());
    assert_eq!(marks(&r), "     ");
}

#[test]
fn with_set_light_replaces_one_position() {
    let r = Reply::all_gray().with_set_light(2, Square::GREEN);
    assert!(r.is_green(2));
    assert!(*r.light(2) == Square::GREEN);
    for i in [0usize, 1, 3, 4] {
        assert!(r.is_gray(i));
    }
    let r = r.with_set_light(4, Square::YELLOW);
    assert_eq!(marks(&r), "  G Y");
}

#[test]
fn oracle_guess_wraps_compare() {
    let oracle = Oracle::create("ERASE");
    let via_oracle = oracle.guess("SPEED");
    let direct = Oracle::compare("SPEED", "ERASE");
    assert_eq!(marks(&via_oracle), marks(&direct));
}
