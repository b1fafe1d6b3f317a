use vlc::innermsg::{Action, Identity, Innermsg, PushType, ZMessage};

#[test]
fn identity_names_round_trip() {
    assert_eq!(Identity::Client.as_str_name(), "IDENTITY_CLIENT");
    assert_eq!(Identity::Server.as_str_name(), "IDENTITY_SERVER");
    assert_eq!(Identity::Init.as_str_name(), "IDENTITY_INIT");
    assert_eq!(
        Identity::from_str_name("IDENTITY_CLIENT"),
        Some(Identity::Client)
    );
    assert_eq!(
        Identity::from_str_name("IDENTITY_SERVER"),
        Some(Identity::Server)
    );
    assert_eq!(Identity::from_str_name("IDENTITY_INIT"), Some(Identity::Init));
    assert_eq!(Identity::from_str_name("IDENTITY_NOBODY"), None);
    assert_eq!(Identity::from_str_name(""), None);
}

#[test]
fn action_names_round_trip() {
    assert_eq!(Action::Read.as_str_name(), "ACTION_READ");
    assert_eq!(Action::Write.as_str_name(), "ACTION_WRITE");
    assert_eq!(Action::ReadReply.as_str_name(), "ACTION_READ_REPLY");
    assert_eq!(Action::WriteReply.as_str_name(), "ACTION_WRITE_REPLY");
    assert_eq!(Action::from_str_name("ACTION_READ"), Some(Action::Read));
    assert_eq!(Action::from_str_name("ACTION_WRITE"), Some(Action::Write));
    assert_eq!(
        Action::from_str_name("ACTION_READ_REPLY"),
        Some(Action::ReadReply)
    );
    assert_eq!(
        Action::from_str_name("ACTION_WRITE_REPLY"),
        Some(Action::WriteReply)
    );
    assert_eq!(Action::from_str_name("ACTION_SLEEP"), None);
}

#[test]
fn push_type_names_round_trip() {
    assert_eq!(PushType::Direct.as_str_name(), "PUSH_TYPE_DIRECT");
    assert_eq!(PushType::Broadcast.as_str_name(), "PUSH_TYPE_BROADCAST");
    assert_eq!(
        PushType::from_str_name("PUSH_TYPE_DIRECT"),
        Some(PushType::Direct)
    );
    assert_eq!(
        PushType::from_str_name("PUSH_TYPE_BROADCAST"),
        Some(PushType::Broadcast)
    );
    assert_eq!(PushType::from_str_name("PUSH_TYPE_GOSSIP"), None);
}

#[test]
fn wire_tags_round_trip() {
    assert_eq!(Identity::from_i32(Identity::Client.as_i32()), Some(Identity::Client));
    assert_eq!(Identity::from_i32(Identity::Server.as_i32()), Some(Identity::Server));
    assert_eq!(Identity::from_i32(Identity::Init.as_i32()), Some(Identity::Init));
    assert_eq!(Identity::from_i32(77), None);

    assert_eq!(Action::from_i32(Action::Read.as_i32()), Some(Action::Read));
    assert_eq!(Action::from_i32(Action::Write.as_i32()), Some(Action::Write));
    assert_eq!(Action::from_i32(Action::ReadReply.as_i32()), Some(Action::ReadReply));
    assert_eq!(Action::from_i32(Action::WriteReply.as_i32()), Some(Action::WriteReply));
    assert_eq!(Action::from_i32(-1), None);

    assert_eq!(PushType::from_i32(PushType::Direct.as_i32()), Some(PushType::Direct));
    assert_eq!(PushType::from_i32(PushType::Broadcast.as_i32()), Some(PushType::Broadcast));
    assert_eq!(PushType::from_i32(2), None);
}

#[test]
fn envelope_carries_message() {
    let inner = Innermsg {
        identity: Identity::Client.as_i32(),
        action: Action::Read.as_i32(),
        push_type: PushType::Direct.as_i32(),
        message: Some(ZMessage { kind: 3, data: vec![1, 2, 3] }),
        public_keys: vec![vec![4, 5]],
        signatures: vec![],
    };
    assert_eq!(Identity::from_i32(inner.identity), Some(Identity::Client));
    assert_eq!(Action::from_i32(inner.action), Some(Action::Read));
    let msg = inner.message.unwrap();
    assert_eq!(msg.kind, 3);
    assert_eq!(msg.data, vec![1, 2, 3]);
}
