use dexscreen_paid_notifier::common::{
    calculate_time_difference, current_unix_millis, time_difference_ms, time_difference_since,
};

#[test]
fn difference_to_now_is_small() {
    let now = current_unix_millis().expect("the clock reads after the epoch");
    let d = calculate_time_difference(now).expect("the clock reads after the epoch");
    assert!(d.as_secs() < 5);
}

#[test]
fn difference_to_the_epoch_is_the_clock() {
    let now = current_unix_millis().expect("the clock reads after the epoch");
    assert!(now > 1_600_000_000_000);
    let d = calculate_time_difference(0).expect("the clock reads after the epoch");
    let ms = d.as_millis() as u64;
    assert!(ms >= now && ms - now < 5_000);
}

#[test]
fn difference_to_a_future_instant() {
    let now = current_unix_millis().expect("the clock reads after the epoch");
    let d = calculate_time_difference(now + 600_000).expect("the clock reads after the epoch");
    assert!(d.as_secs() <= 600 && d.as_secs() >= 595);
}

#[test]
fn difference_in_either_order() {
    assert_eq!(time_difference_ms(10, 3), 7);
    assert_eq!(time_difference_ms(3, 10), 7);
    assert_eq!(time_difference_ms(5, 5), 0);
    assert_eq!(time_difference_ms(0, u64::MAX), u64::MAX);
}

#[test]
fn difference_from_a_given_reading() {
    assert_eq!(time_difference_since(Some(10_000), 2_500).map(|d| d.as_millis()), Some(7_500));
    assert_eq!(time_difference_since(Some(2_500), 10_000).map(|d| d.as_secs()), Some(7));
    assert_eq!(time_difference_since(None, 10), None);
}
