use nix::sys::socket::{
    recvmsg, sendmsg, socketpair, AddressFamily, MsgFlags, SockFlag, SockType, UnixAddr,
};
use nix::sys::socket::{ControlMessage as NixControlMessage, ControlMessageOwned};
use pingora_core::errno::Errno;
use pingora_core::fd_recv::{
    collect_rights, get_fds_from, AcceptAction, AcceptRetry, ControlMessage, FdReceiver,
    RecvAction, RECV_BUFFER_LEN,
};
use pingora_core::fd_send::{
    chunk_messages, send_fds_chunked_to, send_fds_to, FdSender, SendAction, SendEvent,
    MAX_FDS_PER_MSG, MAX_RETRY,
};
use pingora_core::fds::Fds;
use pingora_core::key_codec::{deserialize_vec_string, serialize_vec_string};
use std::io::{IoSlice, IoSliceMut};

fn strings(items: &[&str]) -> Vec<String> {
    items.iter().map(|s| s.to_string()).collect()
}

/// Two connected sockets.
fn pair() -> (i32, i32) {
    socketpair(
        AddressFamily::Unix,
        SockType::Stream,
        None,
        SockFlag::empty(),
    )
    .unwrap()
}

/// Carries out a transfer over a socket that is connected already. Gives the
/// result and how long the transfer would have waited.
fn transfer(mut sender: FdSender, fd: i32) -> (Result<usize, Errno>, u64) {
    let mut action = sender.start();
    let mut waited = 0;
    loop {
        let event = match action {
            SendAction::Connect { delay_ms } => {
                waited += delay_ms;
                SendEvent::Connected
            }
            SendAction::Send { message, delay_ms } => {
                waited += delay_ms;
                let m = sender.message(message).unwrap();
                let iov = [IoSlice::new(&m.payload)];
                let rights = [NixControlMessage::ScmRights(&m.fds)];
                let sent = sendmsg(fd, &iov, &rights, MsgFlags::empty(), None::<&UnixAddr>);
                SendEvent::Sent(sent.unwrap())
            }
            SendAction::Close(result) => return (result, waited),
        };
        assert!(sender.accepts(event));
        action = sender.on_event(event);
    }
}

/// Reads one message into the buffer.
fn read(fd: i32, buf: &mut [u8]) -> (usize, Vec<ControlMessage>) {
    let mut space: Vec<u8> = Vec::with_capacity(8192);
    let mut iov = [IoSliceMut::new(buf)];
    let msg = recvmsg::<UnixAddr>(fd, &mut iov, Some(&mut space), MsgFlags::empty()).unwrap();
    let cmsgs = msg
        .cmsgs()
        .map(|c| match c {
            ControlMessageOwned::ScmRights(fds) => ControlMessage::ScmRights(fds),
            _ => ControlMessage::Unexpected,
        })
        .collect();
    (msg.bytes, cmsgs)
}

/// Takes in everything that comes until the peer closes its socket.
fn receive(fd: i32) -> FdReceiver {
    let mut receiver = FdReceiver::new();
    loop {
        let mut buf = [0u8; RECV_BUFFER_LEN];
        let (bytes, cmsgs) = read(fd, &mut buf);
        match receiver.recv_fds_chunked_from(&buf[..bytes], cmsgs) {
            RecvAction::Receive => {}
            RecvAction::CloseAndReceive(fds) => {
                for fd in fds {
                    nix::unistd::close(fd).unwrap();
                }
            }
            RecvAction::Finish => return receiver,
        }
    }
}

#[test]
fn test_add_get() {
    let mut fds = Fds::new();
    let key = "1.1.1.1:80".to_string();
    fds.add(key.clone(), 128);
    assert_eq!(128, *fds.get(&key).unwrap());
}

#[test]
fn test_table_serde() {
    let mut fds = Fds::new();
    let key1 = "1.1.1.1:80".to_string();
    fds.add(key1.clone(), 128);
    let key2 = "1.1.1.1:443".to_string();
    fds.add(key2.clone(), 129);

    let (k, v) = fds.serialize();
    let mut fds2 = Fds::new();
    fds2.deserialize(k, v);

    assert_eq!(128, *fds2.get(&key1).unwrap());
    assert_eq!(129, *fds2.get(&key2).unwrap());
}

#[test]
fn test_vec_string_serde() {
    let vec_str: Vec<String> = vec!["aaaa".to_string(), "bbb".to_string()];
    let ser_bytes = serialize_vec_string(&vec_str);
    let de_vec_string = deserialize_vec_string(&ser_bytes).unwrap();
    assert_eq!(de_vec_string.len(), 2);
    assert_eq!(de_vec_string[0], "aaaa");
    assert_eq!(de_vec_string[1], "bbb");
}

#[test]
fn test_send_receive_fds() {
    let (ours, theirs) = pair();
    let dumb_fd = pair().0;
    let fds = vec![dumb_fd];
    let buf: [u8; 128] = [1; 128];
    let (result, _) = transfer(send_fds_to(fds, &buf, None), ours);
    match result {
        Ok(sent) => assert!(sent > 0),
        Err(e) => panic!("{:?}", e),
    }

    let mut buf: [u8; 32] = [0; 32];
    let (bytes, cmsgs) = read(theirs, &mut buf);
    let (fds, bytes) = get_fds_from(cmsgs, bytes);
    assert_eq!(1, fds.len());
    assert_eq!(32, bytes);
    assert_eq!(1, buf[0]);
    assert_eq!(1, buf[31]);
}

#[test]
fn test_serde_via_socket() {
    let mut fds = Fds::new();
    let key1 = "1.1.1.1:80".to_string();
    fds.add(key1.clone(), pair().0);
    let key2 = "1.1.1.1:443".to_string();
    fds.add(key2.clone(), pair().0);

    let (ours, theirs) = pair();
    let (result, _) = transfer(fds.send_to_sock(), ours);
    assert_eq!(result, Ok(22));
    nix::unistd::close(ours).unwrap();

    let received = receive(theirs);
    assert!(received.in_step());
    let mut fds2 = Fds::new();
    fds2.get_from_sock(received);
    assert!(*fds2.get(&key1).unwrap() > 0);
    assert!(*fds2.get(&key2).unwrap() > 0);
}

/// Reports the same error of every try to connect.
fn never_connects(mut sender: FdSender, e: Errno) -> (Result<usize, Errno>, u64) {
    let mut action = sender.start();
    let mut waited = 0;
    loop {
        match action {
            SendAction::Connect { delay_ms } => waited += delay_ms,
            SendAction::Send { .. } => panic!("not connected"),
            SendAction::Close(result) => return (result, waited),
        }
        action = sender.on_event(SendEvent::ConnectFailed(e));
    }
}

#[test]
fn test_send_fds_to_respects_configurable_timeout() {
    let buf: [u8; 32] = [1; 32];
    // The peer's socket is never there.
    let (result, waited) = never_connects(send_fds_to(vec![3], &buf, Some(2)), Errno::ENOENT);
    assert!(result.is_err());
    let secs = waited / 1000;
    assert!(secs >= 2, "Expected at least 2 seconds, got {:?}", waited);
    assert!(secs < 4, "Expected less than 4 seconds, got {:?}", waited);
    assert_eq!(result, Err(Errno::ENOENT));
    assert_eq!(waited, 2000);
}

/// Reports that nobody has come, at every try to accept.
fn nobody_comes(max_retry: Option<usize>) -> (Errno, u64) {
    let mut retry = AcceptRetry::new(max_retry);
    let mut waited = 0;
    loop {
        match retry.accept_with_retry_timeout(Errno::EAGAIN) {
            AcceptAction::Accept { delay_ms } => waited += delay_ms,
            AcceptAction::GiveUp(e) => return (e, waited),
        }
    }
}

#[test]
fn test_get_fds_from_respects_configurable_timeout() {
    let (e, waited) = nobody_comes(Some(2));
    let secs = waited / 1000;
    assert!(secs >= 2, "Expected at least 2 seconds, got {:?}", waited);
    assert!(secs < 4, "Expected less than 4 seconds, got {:?}", waited);
    assert_eq!(e, Errno::EAGAIN);
    assert_eq!(waited, 2000);
}

#[test]
fn default_retries() {
    assert_eq!(MAX_RETRY, 5);
    let payload = [0u8; 1];
    let sender = send_fds_to(vec![], &payload, None);
    assert_eq!(
        never_connects(sender, Errno::ECONNREFUSED),
        (Err(Errno::ECONNREFUSED), 5000)
    );
    assert_eq!(nobody_comes(None), (Errno::EAGAIN, 5000));
    assert_eq!(nobody_comes(Some(0)), (Errno::EAGAIN, 0));
}

#[test]
fn accept_ends_at_any_other_error() {
    let mut retry = AcceptRetry::new(Some(2));
    assert_eq!(
        retry.accept_with_retry_timeout(Errno::EAGAIN),
        AcceptAction::Accept { delay_ms: 1000 }
    );
    assert_eq!(
        retry.accept_with_retry_timeout(Errno::Other(24)),
        AcceptAction::GiveUp(Errno::Other(24))
    );
    assert_eq!(retry.retried, 1);
}

#[test]
fn connecting_socket_is_polled_twenty_times() {
    let payload = [0u8; 1];
    let sender = send_fds_to(vec![], &payload, Some(0));
    assert_eq!(
        never_connects(sender, Errno::EINPROGRESS),
        (Err(Errno::EINPROGRESS), 19 * 500)
    );
}

#[test]
fn connect_ends_at_any_other_error() {
    let payload = [0u8; 1];
    for e in [Errno::EAGAIN, Errno::EINVAL, Errno::Other(1)] {
        let sender = send_fds_to(vec![], &payload, Some(9));
        assert_eq!(never_connects(sender, e), (Err(e), 0));
    }
    let sender = send_fds_to(vec![], &payload, Some(0));
    assert_eq!(
        never_connects(sender, Errno::EACCES),
        (Err(Errno::EACCES), 0)
    );
}

#[test]
fn polls_while_connecting_count_for_each_message() {
    let keys: Vec<String> = (0..300).map(|i| format!("k{}", i)).collect();
    let fds: Vec<i32> = (0..300).collect();
    let mut sender = send_fds_chunked_to(&keys, &fds, None);
    for _ in 0..17 {
        assert_eq!(
            sender.on_event(SendEvent::ConnectFailed(Errno::EINPROGRESS)),
            SendAction::Connect { delay_ms: 500 }
        );
    }
    assert_eq!(
        sender.on_event(SendEvent::Connected),
        SendAction::Send {
            message: 0,
            delay_ms: 0
        }
    );
    // Two polls are left, for the first message and again for the second.
    for _ in 0..2 {
        assert_eq!(
            sender.on_event(SendEvent::SendFailed(Errno::EAGAIN)),
            SendAction::Send {
                message: 0,
                delay_ms: 500
            }
        );
    }
    assert_eq!(
        sender.on_event(SendEvent::Sent(7)),
        SendAction::Send {
            message: 1,
            delay_ms: 0
        }
    );
    for _ in 0..2 {
        assert_eq!(
            sender.on_event(SendEvent::SendFailed(Errno::EAGAIN)),
            SendAction::Send {
                message: 1,
                delay_ms: 500
            }
        );
    }
    assert_eq!(
        sender.on_event(SendEvent::SendFailed(Errno::EAGAIN)),
        SendAction::Close(Err(Errno::EAGAIN))
    );
    assert!(!sender.accepts(SendEvent::Connected));
}

#[test]
fn sending_ends_at_any_other_error() {
    let payload = [0u8; 1];
    let mut sender = send_fds_to(vec![4], &payload, None);
    sender.on_event(SendEvent::Connected);
    assert!(!sender.accepts(SendEvent::Connected));
    assert_eq!(
        sender.on_event(SendEvent::SendFailed(Errno::Other(32))),
        SendAction::Close(Err(Errno::Other(32)))
    );
}

#[test]
fn sent_bytes_add_up() {
    let keys: Vec<String> = (0..507).map(|_| "a".to_string()).collect();
    let fds: Vec<i32> = (0..507).collect();
    let mut sender = send_fds_chunked_to(&keys, &fds, None);
    sender.on_event(SendEvent::Connected);
    sender.on_event(SendEvent::Sent(505));
    sender.on_event(SendEvent::Sent(505));
    assert!(!sender.accepts(SendEvent::Sent(usize::MAX)));
    assert_eq!(
        sender.on_event(SendEvent::Sent(1)),
        SendAction::Close(Ok(1011))
    );
}

#[test]
fn empty_table_sends_no_message() {
    let mut sender = Fds::new().send_to_sock();
    assert!(sender.message(0).is_none());
    assert_eq!(
        sender.on_event(SendEvent::Connected),
        SendAction::Close(Ok(0))
    );
}

#[test]
fn chunks_stay_within_the_kernel_limit() {
    assert_eq!(MAX_FDS_PER_MSG, 253);
    for (n, lens) in [
        (0usize, vec![]),
        (1, vec![1usize]),
        (253, vec![253]),
        (254, vec![253, 1]),
        (506, vec![253, 253]),
        (600, vec![253, 253, 94]),
    ] {
        let keys: Vec<String> = (0..n).map(|i| format!("127.0.0.1:{}", i)).collect();
        let fds: Vec<i32> = (0..n as i32).collect();
        let messages = chunk_messages(&keys, &fds);
        let sizes: Vec<usize> = messages.iter().map(|m| m.fds.len()).collect();
        assert_eq!(sizes, lens);
        let all: Vec<i32> = messages.iter().flat_map(|m| m.fds.clone()).collect();
        assert_eq!(all, fds);
    }
}

#[test]
fn one_message_holds_keys_and_descriptors() {
    let messages = chunk_messages(&strings(&["a:1", "b:2"]), &[7, 8]);
    assert_eq!(messages.len(), 1);
    assert_eq!(messages[0].payload, b"a:1 b:2");
    assert_eq!(messages[0].fds, vec![7, 8]);
}

#[test]
fn large_table_arrives_whole() {
    let mut table = Fds::new();
    let fd = pair().0;
    for i in 0..300 {
        table.add(format!("10.0.0.1:{}", i), fd);
    }
    let (ours, theirs) = pair();
    let (result, waited) = transfer(table.send_to_sock(), ours);
    assert!(result.is_ok());
    assert_eq!(waited, 0);
    nix::unistd::close(ours).unwrap();
    let (fds, keys) = receive(theirs).finish();
    assert_eq!(fds.len(), 300);
    let mut expected: Vec<String> = (0..300).map(|i| format!("10.0.0.1:{}", i)).collect();
    let mut keys = keys;
    keys.sort();
    expected.sort();
    assert_eq!(keys, expected);
}

#[test]
fn each_address_keeps_its_own_descriptor() {
    let keys = strings(&["a", "b", "c"]);
    let messages = chunk_messages(&keys, &[10, 11, 12]);
    let mut receiver = FdReceiver::new();
    // The kernel hands over other numbers for the same sockets.
    let action = receiver.recv_fds_chunked_from(
        &messages[0].payload,
        vec![ControlMessage::ScmRights(vec![40, 50, 60])],
    );
    assert!(matches!(action, RecvAction::Receive));
    let action = receiver.recv_fds_chunked_from(&[], vec![]);
    assert!(matches!(action, RecvAction::Finish));
    let mut table = Fds::new();
    table.add("b".to_string(), 1);
    table.add("z".to_string(), 2);
    table.get_from_sock(receiver);
    assert_eq!(table.get("a"), Some(&40));
    assert_eq!(table.get("b"), Some(&50));
    assert_eq!(table.get("c"), Some(&60));
    assert_eq!(table.get("z"), Some(&2));
    assert_eq!(table.get("y"), None);
}

#[test]
fn malformed_chunk_is_skipped_with_its_descriptors() {
    let mut receiver = FdReceiver::new();
    receiver.recv_fds_chunked_from(b"a", vec![ControlMessage::ScmRights(vec![5])]);
    match receiver.recv_fds_chunked_from(
        &[0x61, 0xff],
        vec![
            ControlMessage::ScmRights(vec![6, 7]),
            ControlMessage::Unexpected,
        ],
    ) {
        RecvAction::CloseAndReceive(fds) => assert_eq!(fds, vec![6, 7]),
        other => panic!("{:?}", other),
    }
    receiver.recv_fds_chunked_from(b"b", vec![ControlMessage::ScmRights(vec![8])]);
    assert!(receiver.in_step());
    let (fds, keys) = receiver.finish();
    assert_eq!(fds, vec![5, 8]);
    assert_eq!(keys, strings(&["a", "b"]));
}

#[test]
fn message_may_come_by_several_reads() {
    let mut receiver = FdReceiver::new();
    receiver.recv_fds_chunked_from(b"a:1 ", vec![ControlMessage::ScmRights(vec![5, 6, 7])]);
    receiver.recv_fds_chunked_from(b"b:2", vec![]);
    receiver.recv_fds_chunked_from(b" c:3", vec![]);
    assert!(receiver.in_step());
    let (fds, keys) = receiver.finish();
    assert_eq!(fds, vec![5, 6, 7]);
    assert_eq!(keys, strings(&["a:1", "b:2", "c:3"]));
    // A read that ends within an address makes two of it.
    let mut receiver = FdReceiver::new();
    receiver.recv_fds_chunked_from(b"a:1 b", vec![ControlMessage::ScmRights(vec![5, 6])]);
    receiver.recv_fds_chunked_from(b":2", vec![]);
    assert!(!receiver.in_step());
}

#[test]
fn only_keys_are_read_back() {
    let read_back = |keys: &[&str]| {
        deserialize_vec_string(&serialize_vec_string(&strings(keys))).unwrap() == strings(keys)
    };
    assert!(read_back(&[]));
    assert!(read_back(&["a", "h\u{e9}:1"]));
    assert!(!read_back(&["a b"]));
    assert!(!read_back(&["a", ""]));
    assert!(!read_back(&[""]));
}

#[test]
fn descriptors_without_addresses_are_out_of_step() {
    let mut receiver = FdReceiver::new();
    receiver.recv_fds_chunked_from(b"a b", vec![ControlMessage::ScmRights(vec![5])]);
    assert!(!receiver.in_step());
}

#[test]
fn rights_are_gathered_in_order() {
    let cmsgs = vec![
        ControlMessage::ScmRights(vec![3, 4]),
        ControlMessage::Unexpected,
        ControlMessage::ScmRights(vec![]),
        ControlMessage::ScmRights(vec![9]),
    ];
    assert_eq!(collect_rights(&cmsgs), vec![3, 4, 9]);
    assert_eq!(collect_rights(&vec![]), Vec::<i32>::new());
}

#[test]
fn keys_are_joined_by_spaces() {
    assert_eq!(serialize_vec_string(&[]), b"");
    assert_eq!(serialize_vec_string(&strings(&["a"])), b"a");
    assert_eq!(serialize_vec_string(&strings(&["a", "", "b"])), b"a  b");
    assert_eq!(
        serialize_vec_string(&strings(&["h\u{e9}:1", "b"])),
        "h\u{e9}:1 b".as_bytes()
    );
}

#[test]
fn keys_are_split_at_ascii_whitespace() {
    let keys = deserialize_vec_string(b" a\tb\x0cc\r\nd  e\n").unwrap();
    assert_eq!(keys, strings(&["a", "b", "c", "d", "e"]));
    assert_eq!(deserialize_vec_string(b"").unwrap(), Vec::<String>::new());
    assert_eq!(deserialize_vec_string(b" \n").unwrap(), Vec::<String>::new());
    // Vertical tab and no-break space separate nothing.
    let keys = deserialize_vec_string("a\u{b}b c\u{a0}d".as_bytes()).unwrap();
    assert_eq!(keys, strings(&["a\u{b}b", "c\u{a0}d"]));
}

#[test]
fn keys_that_are_not_utf8_are_refused() {
    assert_eq!(deserialize_vec_string(&[0x61, 0x20, 0xff]), Err(Errno::EINVAL));
    assert_eq!(deserialize_vec_string(&[0xc3]), Err(Errno::EINVAL));
}

#[test]
fn table_binds_each_address_once() {
    let mut fds = Fds::new();
    fds.add("a".to_string(), 1);
    fds.add("b".to_string(), 2);
    fds.add("a".to_string(), 3);
    assert_eq!(fds.get("a"), Some(&3));
    let (keys, values) = fds.serialize();
    assert_eq!(keys.len(), 2);
    assert_eq!(values.len(), 2);
    fds.remove("a");
    fds.remove("nothing");
    assert_eq!(fds.get("a"), None);
    assert_eq!(fds.get("b"), Some(&2));
    fds.deserialize(strings(&["b", "c", "b"]), vec![7, 8, 9]);
    assert_eq!(fds.get("b"), Some(&9));
    assert_eq!(fds.get("c"), Some(&8));
}
