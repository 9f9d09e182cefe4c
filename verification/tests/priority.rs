use g_calc::priority;

#[test]
fn test_priority() {
    assert_eq!(3, priority(&'^'));
    assert_eq!(2, priority(&'*'));
    assert_eq!(2, priority(&'/'));
    assert_eq!(1, priority(&'-'));
    assert_eq!(1, priority(&'+'));
    assert_eq!(0, priority(&'!'));
}

#[test]
fn brackets_have_the_lowest_priority() {
    assert_eq!(0, priority(&'('));
    assert_eq!(0, priority(&')'));
}

#[test]
fn digits_and_blanks_have_no_priority() {
    assert_eq!(0, priority(&'7'));
    assert_eq!(0, priority(&' '));
    assert_eq!(0, priority(&'.'));
    assert_eq!(0, priority(&'\u{3000}'));
}

#[test]
fn priority_layers_are_ordered() {
    let others = ['(', ')', 'a', '0', ' ', '%', '\u{00D7}'];
    assert!(priority(&'^') > priority(&'*'));
    assert_eq!(priority(&'*'), priority(&'/'));
    assert!(priority(&'/') > priority(&'+'));
    assert_eq!(priority(&'+'), priority(&'-'));
    for c in others.iter() {
        assert!(priority(&'-') > priority(c));
    }
}
