use hexmap::events::first_satisfied;

#[test]
fn events_first_satisfied_group() {
    let groups = vec![vec![true, false], vec![true, true], vec![true]];
    assert_eq!(first_satisfied(&groups), Some(1));
    let none = vec![vec![false], vec![true, false]];
    assert_eq!(first_satisfied(&none), None);
    let empty_group: Vec<Vec<bool>> = vec![vec![]];
    assert_eq!(first_satisfied(&empty_group), Some(0));
    assert_eq!(first_satisfied(&Vec::new()), None);
}
