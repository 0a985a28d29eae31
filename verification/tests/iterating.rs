use doc_script::iterating::Iterating;

#[test]
fn test_none() {
    let mut iterator = Iterating::<()>::empty();
    assert_eq!(iterator.next(), None)
}

#[test]
fn test_once_iter() {
    let mut iterator = Iterating::once(42);
    assert_eq!(iterator.next(), Some(42));
    assert_eq!(iterator.next(), None);
}

#[test]
fn test_twice_iter() {
    let mut iterator = Iterating::twice(1, 2);
    assert_eq!(iterator.next(), Some(1));
    assert_eq!(iterator.next(), Some(2));
    assert_eq!(iterator.next(), None);
}

#[test]
fn test_from_iter_none() {
    let mut iterator = Iterating::<()>::from_vec(Vec::new());
    assert_eq!(iterator.next(), None);
}

#[test]
fn test_from_iter_once() {
    let mut iterator = Iterating::from_vec(vec![42]);
    assert_eq!(iterator.next(), Some(42));
    assert_eq!(iterator.next(), None);
}

#[test]
fn test_from_iter_twice() {
    let mut iterator = Iterating::from_vec(vec![1, 2]);
    assert_eq!(iterator.next(), Some(1));
    assert_eq!(iterator.next(), Some(2));
    assert_eq!(iterator.next(), None);
}

#[test]
fn test_many() {
    let mut iterator = Iterating::from_vec(vec![1, 2, 3, 4]);
    assert_eq!(iterator.next(), Some(1));
    assert_eq!(iterator.next(), Some(2));
    assert_eq!(iterator.next(), Some(3));
    assert_eq!(iterator.next(), Some(4));
    assert_eq!(iterator.next(), None);
}

#[test]
fn exhausted_iterator_stays_exhausted() {
    let mut iterator = Iterating::from_vec(vec![7, 8, 9]);
    assert_eq!(iterator.next(), Some(7));
    assert_eq!(iterator.next(), Some(8));
    assert_eq!(iterator.next(), Some(9));
    assert_eq!(iterator.next(), None);
    assert_eq!(iterator.next(), None);
}

#[test]
fn run_of_next_gives_every_element_in_order() {
    assert_eq!(Iterating::from_vec(vec![1, 2, 3, 4, 5]).into_vec(), vec![1, 2, 3, 4, 5]);
    assert_eq!(Iterating::twice(7, 8).into_vec(), vec![7, 8]);
    assert_eq!(Iterating::<u8>::empty().into_vec(), Vec::<u8>::new());
}
