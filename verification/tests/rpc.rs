use yaiko::rpc::{RpcError, RpcFacade, RpcResponse};

#[test]
fn builds_success_and_failure_responses() {
    let f = RpcFacade::new(8);
    let r = f.request("1", "media.render", b"x".to_vec()).unwrap();
    assert_eq!(f.success(&r, b"ok".to_vec()).unwrap(), RpcResponse::Success { id: "1".into(), payload: b"ok".to_vec() });
    assert_eq!(
        f.failure(&r, "not_found", "missing"),
        RpcResponse::Failure { id: "1".into(), code: "not_found".into(), message: "missing".into() }
    )
}

#[test]
fn validates_methods_ids_and_payloads() {
    let f = RpcFacade::new(1);
    assert!(f.request("1", "bad method", Vec::new()).is_err());
    assert!(f.request("1", "ok", b"xx".to_vec()).is_err());
    assert!(f.request("bad id", "ok", Vec::new()).is_err())
}

#[test]
fn reports_each_error_kind() {
    let f = RpcFacade::new(1);
    assert_eq!(f.request("", "ok", Vec::new()), Err(RpcError::InvalidId));
    assert_eq!(f.request("1", "a/b", Vec::new()), Err(RpcError::InvalidMethod));
    assert_eq!(f.request("1", "ok", b"xx".to_vec()), Err(RpcError::PayloadTooLarge));
    let r = f.request("7", "a_b-c.D9", b"x".to_vec()).unwrap();
    assert_eq!(r.method, "a_b-c.D9");
    assert_eq!(f.success(&r, b"xx".to_vec()), Err(RpcError::PayloadTooLarge));
}
