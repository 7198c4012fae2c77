use traf::response_frame::ResponseFrame;

#[test]
fn each_reply_has_its_tag() {
    assert_eq!(ResponseFrame::Success.into(), vec![0u8]);
    assert_eq!(ResponseFrame::ErrorInvalidCommand.into(), vec![1u8]);
    assert_eq!(ResponseFrame::Value(vec![9, 8]).into(), vec![2u8, 9, 8]);
    assert_eq!(ResponseFrame::Value(vec![]).into(), vec![2u8]);
    assert_eq!(ResponseFrame::ValueMissing.into(), vec![3u8]);
}

#[test]
fn each_reply_reads_back() {
    for frame in [
        ResponseFrame::Success,
        ResponseFrame::ErrorInvalidCommand,
        ResponseFrame::Value(b"baz".to_vec()),
        ResponseFrame::Value(vec![]),
        ResponseFrame::Value(vec![0, 1, 2, 3]),
        ResponseFrame::ValueMissing,
    ] {
        let bytes = frame.duplicate().into();
        assert_eq!(ResponseFrame::try_from(bytes), Ok(frame));
    }
}

#[test]
fn empty_reply_is_a_decode_error() {
    assert_eq!(ResponseFrame::try_from(vec![]), Err(()));
}

#[test]
fn unknown_tag_is_a_decode_error() {
    assert_eq!(ResponseFrame::try_from(vec![4]), Err(()));
    assert_eq!(ResponseFrame::try_from(vec![255, 1, 2]), Err(()));
}

#[test]
fn only_the_first_byte_decides_the_reply() {
    assert_eq!(ResponseFrame::try_from(vec![0, 7, 7]), Ok(ResponseFrame::Success));
    assert_eq!(ResponseFrame::try_from(vec![3, 7]), Ok(ResponseFrame::ValueMissing));
    assert_eq!(ResponseFrame::try_from(vec![2, 2, 0]), Ok(ResponseFrame::Value(vec![2, 0])));
}
