use liminal_db::commands::{decode_ws_command, CommandFields, WsCommand};
use liminal_db::protocol::IntrospectTarget;

fn fields(cmd: Option<&str>) -> CommandFields {
    CommandFields { cmd: cmd.map(str::to_string), q: None, pattern: None, target: None, top: None }
}

#[test]
fn plain_commands_are_recognised() {
    assert_eq!(decode_ws_command(&fields(Some("impulse"))), WsCommand::Impulse);
    assert_eq!(decode_ws_command(&fields(Some("policy.set"))), WsCommand::PolicySet);
    assert_eq!(decode_ws_command(&fields(Some("dream.now"))), WsCommand::DreamNow);
    assert_eq!(decode_ws_command(&fields(Some("dream.set"))), WsCommand::DreamSet);
    assert_eq!(decode_ws_command(&fields(Some("dream.get"))), WsCommand::DreamGet);
    assert_eq!(decode_ws_command(&fields(Some("sync.now"))), WsCommand::SyncNow);
    assert_eq!(decode_ws_command(&fields(Some("sync.set"))), WsCommand::SyncSet);
    assert_eq!(decode_ws_command(&fields(Some("sync.get"))), WsCommand::SyncGet);
    assert_eq!(decode_ws_command(&fields(Some("awaken.set"))), WsCommand::AwakenSet);
    assert_eq!(decode_ws_command(&fields(Some("awaken.get"))), WsCommand::AwakenGet);
    assert_eq!(
        decode_ws_command(&fields(Some("awaken.now"))),
        WsCommand::Introspect { target: IntrospectTarget::Awaken, top: None }
    );
}

#[test]
fn unknown_or_missing_cmd_is_raw() {
    assert_eq!(decode_ws_command(&fields(Some("Impulse"))), WsCommand::Raw);
    assert_eq!(decode_ws_command(&fields(Some("teleport"))), WsCommand::Raw);
    assert_eq!(decode_ws_command(&fields(None)), WsCommand::Raw);
}

#[test]
fn queries_and_subscriptions_need_their_text() {
    let mut f = fields(Some("lql"));
    assert_eq!(decode_ws_command(&f), WsCommand::Dropped);
    f.q = Some("SELECT cpu".to_string());
    assert_eq!(decode_ws_command(&f), WsCommand::Lql { query: "SELECT cpu".to_string() });
    let mut s = fields(Some("subscribe"));
    assert_eq!(decode_ws_command(&s), WsCommand::Dropped);
    s.pattern = Some("cpu/load".to_string());
    assert_eq!(decode_ws_command(&s), WsCommand::Lql { query: "SUBSCRIBE cpu/load".to_string() });
}

#[test]
fn introspection_reads_target_and_clamps_top() {
    let mut f = fields(Some("introspect"));
    assert_eq!(decode_ws_command(&f), WsCommand::Dropped);
    f.target = Some("nothing".to_string());
    assert_eq!(decode_ws_command(&f), WsCommand::Dropped);
    f.target = Some("MODEL".to_string());
    assert_eq!(decode_ws_command(&f), WsCommand::Introspect { target: IntrospectTarget::Model, top: None });
    f.top = Some(7);
    assert_eq!(decode_ws_command(&f), WsCommand::Introspect { target: IntrospectTarget::Model, top: Some(7) });
    f.top = Some(u64::MAX);
    assert_eq!(
        decode_ws_command(&f),
        WsCommand::Introspect { target: IntrospectTarget::Model, top: Some(u32::MAX) }
    );
    f.target = Some("tension".to_string());
    f.top = None;
    assert_eq!(decode_ws_command(&f), WsCommand::Introspect { target: IntrospectTarget::Tension, top: None });
}
