use alaybey::stack::{AlaybeyStack, StackError};

#[test]
fn push_pop_peek() {
    let mut s = AlaybeyStack::new(4);
    assert!(matches!(s.peek_data_(), Err(StackError::GetData)));
    s.push_data((None, (Some(3), None))).unwrap();
    s.push_data((None, (None, Some(2)))).unwrap();
    assert_eq!(s.len(), 2);
    assert_eq!(s.peek_data_().unwrap(), (None, (None, Some(2))));
    assert_eq!(s.pop_data_().unwrap(), (None, (None, Some(2))));
    assert_eq!(s.pop_data_().unwrap(), (None, (Some(3), None)));
    assert_eq!(s.len(), 0);
}

#[test]
fn push_on_full_stack_overflows() {
    let mut s = AlaybeyStack::new(2);
    s.push_data((None, (Some(1), None))).unwrap();
    s.push_data((None, (Some(2), None))).unwrap();
    let e = s.push_data((None, (Some(3), None))).unwrap_err();
    assert_eq!(e, StackError::Stackoverflow(2, 2));
    assert_eq!(e.message(), "Stack overflow error.. capacity 2 , size 2 ");
    assert_eq!(s.len(), 2);
    assert_eq!(s.peek_data_().unwrap(), (None, (Some(2), None)));
}

#[test]
fn pointer_reads_last_definition() {
    let mut s = AlaybeyStack::new(8);
    s.push_data((Some(1), (Some(10), None))).unwrap();
    s.push_data((Some(2), (Some(20), None))).unwrap();
    s.push_data((Some(1), (Some(11), None))).unwrap();
    s.push_data((None, (Some(5), None))).unwrap();
    assert_eq!(s.get_data_from_pointer_(1), Ok(11));
    assert_eq!(s.get_data_from_pointer_(2), Ok(20));
    assert_eq!(s.get_data_from_pointer_(3), Err(StackError::Pointer));
    s.push_data((Some(3), (None, Some(1)))).unwrap();
    assert_eq!(s.get_data_from_pointer_(3), Err(StackError::Pointer));
}

#[test]
fn stack_error_messages() {
    assert_eq!(StackError::Pointer.message(), "unable to get pointer data..");
    assert_eq!(StackError::GetData.message(), "unable to get data..");
    assert_eq!(
        StackError::Stackoverflow(512, 1034).message(),
        "Stack overflow error.. capacity 512 , size 1034 "
    );
}
