use sudidakt::model::group::Group;
use sudidakt::model::group_set::GroupSet;
use sudidakt::model::index::GroupIndex;

#[test]
fn group_set_empty_set() {
    let empty = GroupSet::default();

    assert!(empty.is_empty());
    assert_eq!(0, empty.size());
    assert_eq!("{}", &empty.to_string());
}

#[test]
fn single_group_set() {
    let single = GroupSet::from(group(3));

    assert!(!single.is_empty());
    assert_eq!(1, single.size());
    assert_eq!("{Column(3)}", &single.to_string());
}

#[test]
fn crud_group_set() {
    let three = group(3);
    let four = group(4);

    let mut set = GroupSet::default();
    set.add(three);

    assert!(set.has(three));
    assert!(!set.has(four));
    assert_eq!("{Column(3)}", &set.to_string());

    set.remove(four);

    assert!(set.has(three));
    assert!(!set.has(four));
    assert_eq!("{Column(3)}", &set.to_string());

    set.add(four);

    assert!(set.has(three));
    assert!(set.has(four));
    assert_eq!("{Column(3), Column(4)}", &set.to_string());

    set.remove(three);

    assert!(!set.has(three));
    assert!(set.has(four));
    assert_eq!("{Column(4)}", &set.to_string());

    set.remove(four);

    assert!(!set.has(three));
    assert!(!set.has(four));
    assert_eq!("{}", &set.to_string());
}

fn group(group: usize) -> Group {
    Group::new(GroupIndex::new(group).expect("Valid Group"))
}
