use capnp::byte_channel::{channel, Inner, Poll, ReadEndClosed, Receiver, Sender, BUFFER_LEN};

const WRITER: u32 = 1;
const READER: u32 = 2;

/// Writes as much of `data` as goes through now.
fn write_some(
    sender: &Sender,
    inner: &mut Inner<u32>,
    data: &[u8],
) -> Result<(usize, Option<u32>), ReadEndClosed> {
    let mut done: usize = 0;
    let mut woken: Option<u32> = None;
    while done < data.len() {
        let (poll, wake) = sender.poll_write(inner, WRITER, &data[done..]);
        woken = woken.or(wake);
        match poll {
            Poll::Ready(Ok(n)) => done += n,
            Poll::Ready(Err(e)) => return Err(e),
            Poll::Pending => break,
        }
    }
    Ok((done, woken))
}

/// Reads as much as is there, and whether the end was reached.
fn read_some(receiver: &Receiver, inner: &mut Inner<u32>, into: &mut Vec<u8>) -> bool {
    loop {
        let before: usize = into.len();
        match receiver.poll_read(inner, READER, into, 32).0 {
            Poll::Ready(()) => {
                if into.len() == before {
                    return true;
                }
            }
            Poll::Pending => return false,
        }
    }
}

#[test]
fn basic() {
    let (sender, receiver, mut inner) = channel::<u32>();
    let buf: Vec<u8> = vec![1, 2, 3, 4, 5]
        .into_iter()
        .cycle()
        .take(20000)
        .collect();
    let mut buf3: Vec<u8> = vec![];
    let mut sent: usize = 0;
    let mut sender = Some(sender);
    loop {
        if let Some(s) = sender.take() {
            sent += write_some(&s, &mut inner, &buf[sent..]).unwrap().0;
            if sent == buf.len() {
                s.drop(&mut inner);
            } else {
                sender = Some(s);
            }
        }
        if read_some(&receiver, &mut inner, &mut buf3) {
            break;
        }
    }
    assert_eq!(buf.len(), buf3.len());
    assert_eq!(buf, buf3);
}

#[test]
fn drop_reader() {
    let (sender, receiver, mut inner) = channel::<u32>();
    receiver.drop(&mut inner);
    let result = write_some(&sender, &mut inner, &[0, 1, 2]);
    assert!(result.is_err());
}

#[test]
fn read_of_empty_channel_waits_and_is_woken_by_a_write() {
    let (sender, receiver, mut inner) = channel::<u32>();
    let mut got: Vec<u8> = vec![];
    let (poll, wake) = receiver.poll_read(&mut inner, READER, &mut got, 4);
    assert_eq!(poll, Poll::Pending);
    assert_eq!(wake, None);
    let (poll, wake) = sender.poll_write(&mut inner, WRITER, &[7, 8, 9]);
    assert_eq!(poll, Poll::Ready(Ok(3)));
    assert_eq!(wake, Some(READER));
    assert_eq!(receiver.poll_read(&mut inner, READER, &mut got, 2).0, Poll::Ready(()));
    assert_eq!(got, vec![7, 8]);
    assert_eq!(receiver.poll_read(&mut inner, READER, &mut got, 9).0, Poll::Ready(()));
    assert_eq!(got, vec![7, 8, 9]);
}

#[test]
fn write_to_full_channel_waits_and_is_woken_by_a_read() {
    let (sender, receiver, mut inner) = channel::<u32>();
    let data: Vec<u8> = vec![3; BUFFER_LEN + 10];
    assert_eq!(BUFFER_LEN, 8096);
    assert_eq!(sender.poll_write(&mut inner, WRITER, &data).0, Poll::Ready(Ok(8096)));
    assert_eq!(sender.poll_write(&mut inner, WRITER, &data).0, Poll::Pending);
    let mut got: Vec<u8> = vec![];
    let (poll, wake) = receiver.poll_read(&mut inner, READER, &mut got, 1);
    assert_eq!(poll, Poll::Ready(()));
    assert_eq!(wake, Some(WRITER));
    // The buffer is reused only once it has been read to its end.
    assert_eq!(sender.poll_write(&mut inner, WRITER, &data).0, Poll::Pending);
    assert_eq!(receiver.poll_read(&mut inner, READER, &mut got, 9000).0, Poll::Ready(()));
    assert_eq!(got.len(), 8096);
    assert_eq!(sender.poll_write(&mut inner, WRITER, &data[..10]).0, Poll::Ready(Ok(10)));
}

#[test]
fn shutdown_ends_the_stream() {
    let (sender, receiver, mut inner) = channel::<u32>();
    let mut got: Vec<u8> = vec![];
    assert_eq!(sender.poll_write(&mut inner, WRITER, &[1, 2]).0, Poll::Ready(Ok(2)));
    assert_eq!(sender.poll_flush(&mut inner), Poll::Ready(()));
    assert_eq!(sender.poll_shutdown(&mut inner), (Poll::Ready(()), None));
    assert_eq!(receiver.poll_read(&mut inner, READER, &mut got, 5).0, Poll::Ready(()));
    assert_eq!(got, vec![1, 2]);
    assert_eq!(receiver.poll_read(&mut inner, READER, &mut got, 5).0, Poll::Ready(()));
    assert_eq!(got, vec![1, 2]);
}

#[test]
fn shutdown_wakes_the_reader() {
    let (sender, receiver, mut inner) = channel::<u32>();
    let mut got: Vec<u8> = vec![];
    assert_eq!(receiver.poll_read(&mut inner, READER, &mut got, 5).0, Poll::Pending);
    assert_eq!(sender.poll_shutdown(&mut inner), (Poll::Ready(()), Some(READER)));
    assert_eq!(sender.drop(&mut inner), None);
}

#[test]
fn drop_of_reader_wakes_the_writer() {
    let (sender, receiver, mut inner) = channel::<u32>();
    let data: Vec<u8> = vec![0; BUFFER_LEN];
    assert_eq!(sender.poll_write(&mut inner, WRITER, &data).0, Poll::Ready(Ok(8096)));
    assert_eq!(sender.poll_write(&mut inner, WRITER, &data).0, Poll::Pending);
    assert_eq!(receiver.drop(&mut inner), Some(WRITER));
    assert_eq!(
        sender.poll_write(&mut inner, WRITER, &data).0,
        Poll::Ready(Err(ReadEndClosed))
    );
}
