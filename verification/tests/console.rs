use liminal_db::console::{
    classify_console_line, classify_reflex_command, classify_trs_command, classify_ws_command, ConsoleLine,
    ReflexCommand, TrsCommand, WsCommand,
};
use liminal_db::types::ImpulseKind;

#[test]
fn colon_commands() {
    assert!(matches!(classify_console_line("  :snapshot "), ConsoleLine::Snapshot));
    assert!(matches!(classify_console_line(":stats"), ConsoleLine::Stats));
    assert!(matches!(classify_console_line(":export"), ConsoleLine::ExportUsage));
    match classify_console_line(":export  /tmp/snap.json ") {
        ConsoleLine::Export(p) => assert_eq!(p, "/tmp/snap.json"),
        _ => panic!("expected export"),
    }
    match classify_console_line(":exportexport x") {
        ConsoleLine::Export(p) => assert_eq!(p, "x"),
        _ => panic!("expected export"),
    }
    match classify_console_line(":reflex add {\"a\":1}") {
        ConsoleLine::Reflex(r) => assert_eq!(r, "add {\"a\":1}"),
        _ => panic!("expected reflex"),
    }
    match classify_console_line(":ws info") {
        ConsoleLine::Ws(r) => assert_eq!(r, "info"),
        _ => panic!("expected ws"),
    }
    match classify_console_line(":trs") {
        ConsoleLine::Trs(r) => assert_eq!(r, ""),
        _ => panic!("expected trs"),
    }
    match classify_console_line(":mirror top 5") {
        ConsoleLine::UnknownCommand(r) => assert_eq!(r, "mirror top 5"),
        _ => panic!("expected unknown command"),
    }
}

#[test]
fn lql_and_impulses() {
    assert!(matches!(classify_console_line("   "), ConsoleLine::Empty));
    assert!(matches!(classify_console_line("LQL"), ConsoleLine::LqlUsage));
    assert!(matches!(classify_console_line("lql    "), ConsoleLine::LqlUsage));
    match classify_console_line("Lql SELECT cpu/load WINDOW 1000") {
        ConsoleLine::Lql(q) => assert_eq!(q, "SELECT cpu/load WINDOW 1000"),
        _ => panic!("expected lql"),
    }
    match classify_console_line("a cpu/load 0.9") {
        ConsoleLine::Impulse(w) => {
            assert_eq!(w.kind, ImpulseKind::Affect);
            assert_eq!(w.pattern, "cpu/load");
            assert_eq!(w.strength.as_deref(), Some("0.9"));
        }
        _ => panic!("expected impulse"),
    }
    match classify_console_line("hello world") {
        ConsoleLine::Unknown(t) => assert_eq!(t, "hello world"),
        _ => panic!("expected unknown"),
    }
    match classify_console_line("lql\tSELECT x") {
        ConsoleLine::Unknown(t) => assert_eq!(t, "lql\tSELECT x"),
        _ => panic!("a tab does not separate the lql prefix"),
    }
}

#[test]
fn reflex_subcommands() {
    assert!(matches!(classify_reflex_command(""), ReflexCommand::Help));
    assert!(matches!(classify_reflex_command("help"), ReflexCommand::Help));
    assert!(matches!(classify_reflex_command("add"), ReflexCommand::AddUsage));
    match classify_reflex_command("add  {\"token\":\"cpu\"} ") {
        ReflexCommand::Add(j) => assert_eq!(j, "{\"token\":\"cpu\"}"),
        _ => panic!("expected add"),
    }
    assert!(matches!(classify_reflex_command("list"), ReflexCommand::List));
    assert!(matches!(classify_reflex_command("rm 12"), ReflexCommand::Remove(12)));
    assert!(matches!(classify_reflex_command("rm"), ReflexCommand::RemoveUsage));
    match classify_reflex_command("rm x1") {
        ReflexCommand::InvalidId(t) => assert_eq!(t, "x1"),
        _ => panic!("expected invalid id"),
    }
    match classify_reflex_command("drop 1") {
        ReflexCommand::Unknown(t) => assert_eq!(t, "drop"),
        _ => panic!("expected unknown"),
    }
}

#[test]
fn trs_and_ws_subcommands() {
    assert!(matches!(classify_trs_command(""), TrsCommand::Show));
    assert!(matches!(classify_trs_command("show"), TrsCommand::Show));
    assert!(matches!(classify_trs_command("set"), TrsCommand::SetUsage));
    match classify_trs_command("target 0.5") {
        TrsCommand::Target(v) => assert_eq!(v, "0.5"),
        _ => panic!("expected target"),
    }
    assert!(matches!(classify_trs_command("target"), TrsCommand::TargetUsage));
    assert!(matches!(classify_ws_command(""), WsCommand::Help));
    assert!(matches!(classify_ws_command("info"), WsCommand::Info));
    assert!(matches!(classify_ws_command("send"), WsCommand::SendUsage));
    match classify_ws_command("broadcast {\"ev\":\"x\"}") {
        WsCommand::Broadcast(j) => assert_eq!(j, "{\"ev\":\"x\"}"),
        _ => panic!("expected broadcast"),
    }
    match classify_ws_command("ping") {
        WsCommand::Unknown(t) => assert_eq!(t, "ping"),
        _ => panic!("expected unknown"),
    }
}
