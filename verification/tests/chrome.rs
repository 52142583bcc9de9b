use sequences::chrome::{CallFrame, Headers, Initiator, InitiatorScript, Request, StackTrace, TargetInfo, TargetType};

#[test]
fn chrome_types_compare_by_fields() {
    let frame = CallFrame { url: "https://example.com/a.js".to_string(), script_id: "86".to_string() };
    let stack = StackTrace {
        call_frames: vec![frame.clone()],
        parent: Some(Box::new(StackTrace { call_frames: vec![], parent: None })),
    };
    let a = Initiator::Script(InitiatorScript::Stack { stack });
    let b = Initiator::Script(InitiatorScript::JsModule { url: "https://example.com/m.js".to_string() });
    assert_ne!(a, b);
    assert!(Initiator::<String>::Other {} < Initiator::Parser { url: "x".to_string() });
    let r = Request { url: "https://example.com/".to_string(), headers: Headers { referer: None } };
    assert_eq!(r.clone(), r);
    assert!(TargetType::Page < TargetType::Webview);
    let t = TargetInfo { url: "about:blank".to_string(), target_type: TargetType::Iframe };
    assert_eq!(t.target_type, TargetType::Iframe);
}
