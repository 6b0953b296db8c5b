use llmtrim::listener::{bind_address, BindAddress, BindError, Host, BIND_HOST};

fn is_loopback(address: &BindAddress) -> bool {
    address.host[0] == 127
}

#[test]
fn the_default_bind_is_ipv4_loopback() {
    let address = bind_address(None, 43117).expect("default binds");
    assert_eq!(address.host, BIND_HOST);
    assert_eq!(address.host, [127, 0, 0, 1]);
    assert!(is_loopback(&address));
    assert_eq!(address.port, 43117);
}

#[test]
fn an_all_interfaces_bind_is_refused() {
    assert_eq!(
        bind_address(Some(Host::V4([0, 0, 0, 0])), 43117),
        Err(BindError::NotLoopback)
    );
}

#[test]
fn a_public_ipv6_bind_is_refused() {
    for address in [
        Host::V6([0, 0, 0, 0, 0, 0, 0, 0]),
        Host::V6([0, 0, 0, 0, 0, 0, 0, 1]),
    ] {
        assert_eq!(
            bind_address(Some(address), 43117),
            Err(BindError::NotLoopback),
            "{address:?}"
        );
    }
}

#[test]
fn a_routable_address_is_refused() {
    for address in [[192, 168, 1, 10], [10, 0, 0, 5], [8, 8, 8, 8]] {
        assert_eq!(
            bind_address(Some(Host::V4(address)), 43117),
            Err(BindError::NotLoopback),
            "{address:?}"
        );
    }
}

#[test]
fn explicit_loopback_is_accepted_and_normalized() {
    let address = bind_address(Some(Host::V4([127, 0, 0, 1])), 0).expect("loopback");
    assert!(is_loopback(&address));
    assert_eq!(address.port, 0);
}

#[test]
fn another_address_of_the_loopback_block_is_refused() {
    assert_eq!(
        bind_address(Some(Host::V4([127, 0, 0, 2])), 43117),
        Err(BindError::NotLoopback)
    );
    assert_eq!(
        BindError::NotLoopback.message(),
        "the codex gateway only binds 127.0.0.1"
    );
}
