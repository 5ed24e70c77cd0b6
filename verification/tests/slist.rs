use exercises::slist::{NodeID, SList};
use std::rc::Rc;

#[test]
fn test_empty_top() {
    let list = SList::<f64>::new();
    assert_eq!(list.top(), None);
}

#[test]
fn test_push_top() {
    let mut list = SList::<i32>::new();
    let test_vals = [0, 4, 6, 3, -3716, 48];
    for test_val in test_vals.iter() {
        list.push(test_val.clone());
        assert_eq!(list.top(), Some(test_val));
    }
}

#[test]
fn test_get_empty() {
    let list = SList::<Box<Option<String>>>::new();
    for i in 0..1000 {
        assert_eq!(list.get(NodeID(i)), None);
    }
}

#[test]
fn test_push_id() {
    let mut list = SList::<i32>::new();
    let id_0 = list.push(0);
    let id_8 = list.push(8);
    let id_m28 = list.push(-28);
    let id_1000 = list.push(1000);

    assert_eq!(list.get(id_0), Some(&0));
    assert_eq!(list.get(id_8), Some(&8));
    assert_eq!(list.get(id_m28), Some(&-28));
    assert_eq!(list.get(id_1000), Some(&1000));
}

#[test]
fn test_find_prior() {
    let mut list = SList::<i32>::new();
    let id_2 = list.push(2);
    let id_3 = list.push(3);
    let id_5 = list.push(5);
    let id_7 = list.push(7);
    let id_11 = list.push(11);
    let id_13 = list.push(13);

    // It pushes in reverse order.
    assert_eq!(list.find_prior(id_13), None);
    assert_eq!(list.find_prior(id_11), Some(id_13));
    assert_eq!(list.find_prior(id_7), Some(id_11));
    assert_eq!(list.find_prior(id_5), Some(id_7));
    assert_eq!(list.find_prior(id_3), Some(id_5));
    assert_eq!(list.find_prior(id_2), Some(id_3));
}

#[test]
fn test_del_middle() {
    let mut list = SList::<u16>::new();
    let id_0 = list.push(0);
    let id_1 = list.push(1);
    let id_2 = list.push(2);
    let id_3 = list.push(3);
    let id_4 = list.push(4);

    assert_eq!(list.delete_middle(id_3), Ok(()));

    assert_eq!(list.get(id_0), Some(&0));
    assert_eq!(list.get(id_1), Some(&1));
    assert_eq!(list.get(id_2), Some(&2));
    assert_eq!(list.get(id_3), None);
    assert_eq!(list.get(id_4), Some(&4));
}

#[test]
fn test_del_middle_end() {
    let mut ctci = SList::<Rc<str>>::new();
    let id_d = ctci.push(Rc::from("Daniel"));
    let _id_m = ctci.push(Rc::from("Marcell"));
    let _id_l = ctci.push(Rc::from("Louis"));
    let _id_g = ctci.push(Rc::from("George"));

    assert_eq!(ctci.delete_middle(id_d), Err(()));
    assert_eq!(ctci.get(id_d), Some(&Rc::from("Daniel")));
}

#[test]
fn test_del_middle_start() {
    let mut ctci = SList::<Rc<str>>::new();
    let _id_d = ctci.push(Rc::from("Daniel"));
    let _id_m = ctci.push(Rc::from("Marcell"));
    let _id_l = ctci.push(Rc::from("Louis"));
    let id_g = ctci.push(Rc::from("George"));

    assert_eq!(ctci.delete_middle(id_g), Err(()));
    assert_eq!(ctci.get(id_g), Some(&Rc::from("George")));
}

#[test]
fn numbers_are_given_out_in_order() {
    let mut list = SList::<char>::new();
    assert_eq!(list.push('a'), NodeID(0));
    assert_eq!(list.push('b'), NodeID(1));
    assert_eq!(list.push('c'), NodeID(2));
    assert_eq!(list.delete_middle(NodeID(1)), Ok(()));
    assert_eq!(list.push('d'), NodeID(3));
    assert_eq!(list.get(NodeID(1)), None);
}

#[test]
fn deleting_relinks_the_neighbours() {
    let mut list = SList::<char>::new();
    let ids: Vec<NodeID> = "abcde".chars().map(|c| list.push(c)).collect();
    assert_eq!(list.delete_middle(ids[2]), Ok(()));
    assert_eq!(list.find_prior(ids[1]), Some(ids[3]));
    assert_eq!(list.delete_middle(ids[2]), Err(()));
    assert_eq!(list.delete_middle(ids[1]), Ok(()));
    assert_eq!(list.find_prior(ids[0]), Some(ids[3]));
    assert_eq!(list.delete_middle(ids[3]), Ok(()));
    assert_eq!(list.find_prior(ids[0]), Some(ids[4]));
    assert_eq!(list.delete_middle(ids[0]), Err(()));
    assert_eq!(list.delete_middle(ids[4]), Err(()));
    assert_eq!(list.top(), Some(&'e'));
}

#[test]
fn delete_middle_refuses_what_is_not_there() {
    let mut list = SList::<u8>::new();
    assert_eq!(list.delete_middle(NodeID(0)), Err(()));
    list.push(1);
    list.push(2);
    list.push(3);
    assert_eq!(list.delete_middle(NodeID(7)), Err(()));
    assert_eq!(list.get(NodeID(1)), Some(&2));
}

#[test]
fn find_prior_of_a_stranger_is_the_bottom() {
    let mut list = SList::<u8>::new();
    assert_eq!(list.find_prior(NodeID(3)), None);
    let bottom = list.push(1);
    list.push(2);
    assert_eq!(list.find_prior(NodeID(9)), Some(bottom));
}
