use mmsolv::util::{IncWrap, ValLooper};

#[test]
fn the_looper_goes_round() {
    let mut looper = ValLooper::new(&[3, 4, 5, 7]);
    assert_eq!(looper.value(), 3);
    looper.go_next();
    assert_eq!(looper.value(), 4);
    looper.go_next();
    assert_eq!(looper.value(), 5);
    looper.go_next();
    assert_eq!(looper.value(), 7);
    looper.go_next();
    assert_eq!(looper.value(), 3);
}

#[test]
fn a_looper_of_one_value_stays() {
    let mut looper = ValLooper::new(&[9]);
    looper.go_next();
    assert_eq!(looper.value(), 9);
    looper.go_next();
    assert_eq!(looper.value(), 9);
}

#[test]
fn a_looper_of_nothing_can_go_on() {
    let mut looper = ValLooper::new(&[]);
    looper.go_next();
    looper.go_next();
}

#[test]
fn the_wrap_goes_back_to_its_smallest() {
    let mut wrap = IncWrap::new(3, 5);
    assert_eq!(wrap.value, 3);
    wrap.inc();
    assert_eq!(wrap.value, 4);
    wrap.inc();
    assert_eq!(wrap.value, 5);
    wrap.inc();
    assert_eq!(wrap.value, 3);
}

#[test]
fn a_wrap_of_one_value_stays() {
    let mut wrap = IncWrap::new(7, 7);
    wrap.inc();
    assert_eq!(wrap.value, 7);
}
