use capnp::error::{Error, ErrorKind};
use capnp::reconnect::{released, Answer, Bootstrap, Connector, Release, TestInterfaceImpl};

/// A connection that is made anew when it turns out to be lost.
struct Client {
    connector: Connector,
    server: Option<TestInterfaceImpl<u8>>,
}

impl Client {
    fn lazy(connector: Connector) -> Client {
        Client { connector, server: None }
    }

    fn connected(connector: Connector) -> Client {
        let mut client = Client::lazy(connector);
        client.server();
        client
    }

    fn server(&mut self) -> &mut TestInterfaceImpl<u8> {
        if self.server.is_none() {
            self.server = Some(self.connector.connect());
        }
        self.server.as_mut().unwrap()
    }

    fn test(&mut self, i: u32, j: bool) -> Result<String, Error> {
        let answer = match self.server().foo(i, j) {
            Answer::Fail(e) => Err(e),
            Answer::Reply(text) => Ok(text),
            Answer::ReplyAfter(_, _) => panic!("blocked"),
        };
        if let Err(e) = &answer {
            if e.kind == ErrorKind::Disconnected {
                self.server = Some(self.connector.connect());
            }
        }
        answer
    }
}

/// Calls, lost connections and blocked answers, on a client.
fn do_autoconnect_test(mut client: Client) {
    assert_eq!(client.test(123, true).unwrap(), "123 true 0");
    client.server().set_error(Error::disconnected("test1 disconnect".to_string()));
    assert_eq!(
        client.test(456, true).unwrap_err(),
        Error::disconnected("test1 disconnect".to_string())
    );
    assert_eq!(client.test(789, false).unwrap(), "789 false 1");
    assert_eq!(client.test(21, true).unwrap(), "21 true 1");

    client.server().block(7);
    for (i, j) in [(32, false), (43, true)] {
        match client.server().foo(i, j) {
            Answer::ReplyAfter(_, block) => assert_eq!(*block, 7),
            _ => panic!("not blocked"),
        }
    }
    let lost = Error::disconnected("test2 disconnect".to_string());
    assert_eq!(released(Release::Sent(Err(lost.clone()))).unwrap_err(), lost);
    client.server = None;
    assert_eq!(client.test(43, false).unwrap(), "43 false 2");

    client.server().block(8);
    let promise1 = match client.server().foo(1212, true) {
        Answer::ReplyAfter(text, _) => text,
        _ => panic!("not blocked"),
    };
    let promise2 = match client.server().foo(3434, false) {
        Answer::ReplyAfter(text, _) => text,
        _ => panic!("not blocked"),
    };
    client.server().set_error(Error::disconnected("test3 disconnect".to_string()));
    assert_eq!(
        client.test(7878, false).unwrap_err(),
        Error::disconnected("test3 disconnect".to_string())
    );
    assert_eq!(client.test(5656, true).unwrap(), "5656 true 3");
    assert!(released(Release::Sent(Ok(()))).is_ok());
    assert_eq!(promise1, "1212 true 2");
    assert_eq!(promise2, "3434 false 2");
}

#[test]
fn auto_reconnect_direct_call() {
    do_autoconnect_test(Client::connected(Connector::new()));
}

#[test]
fn auto_reconnect_rpc_call() {
    let mut b: Bootstrap<Client> = Bootstrap::new();
    b.set_interface(Client::connected(Connector::new()));
    let client = b.test_interface().ok().unwrap();
    do_autoconnect_test(client);
    let e = b.test_interface().err().unwrap();
    assert_eq!(e, Error::failed("No interface available".to_string()));
}

#[test]
fn lazy_auto_reconnect_test() {
    let mut client = Client::connected(Connector::new());
    assert_eq!(client.connector.connect_count, 1);
    assert_eq!(client.test(123, true).unwrap(), "123 true 0");
    assert_eq!(client.connector.connect_count, 1);

    let mut client = Client::lazy(client.connector);
    assert_eq!(client.connector.connect_count, 1);
    assert_eq!(client.test(123, true).unwrap(), "123 true 1");
    assert_eq!(client.connector.connect_count, 2);
    assert_eq!(client.test(234, false).unwrap(), "234 false 1");
    assert_eq!(client.connector.connect_count, 2);

    client.server().set_error(Error::disconnected("test1 disconnect".to_string()));
    assert_eq!(
        client.test(345, true).unwrap_err(),
        Error::disconnected("test1 disconnect".to_string())
    );

    // Only the first connection is made lazily, not those that replace it.
    assert_eq!(client.connector.connect_count, 3);
    assert_eq!(client.test(456, false).unwrap(), "456 false 2");
    assert_eq!(client.connector.connect_count, 3);
}

#[test]
fn dropped_release_is_a_failure() {
    let e = released(Release::Dropped).unwrap_err();
    assert_eq!(e.kind, ErrorKind::Failed);
    assert_eq!(e.extra, "dropped sender");
}
