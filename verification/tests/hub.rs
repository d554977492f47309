use liminal_db::hub::{
    expand_key, format_client_line, format_clients, list_clients, now_instant, register_client_snapshot,
    remove_client_snapshot, set_default_format, shorten_key, update_client_format, update_client_ping,
    ClientRegistry, ClientSnapshot, StreamFormat,
};

fn client(id: u64, addr: &str) -> ClientSnapshot {
    let now = now_instant();
    ClientSnapshot { id, last_ping: now, connected_at: now, addr: addr.to_string(), format: StreamFormat::Json }
}

#[test]
fn clients_register_update_and_leave() {
    let mut hub = ClientRegistry::new();
    assert_eq!(hub.default_format(), StreamFormat::Json);
    register_client_snapshot(&mut hub, client(1, "10.0.0.1:5000"));
    register_client_snapshot(&mut hub, client(2, "10.0.0.2:5000"));
    update_client_format(&mut hub, 2, StreamFormat::Cbor);
    update_client_ping(&mut hub, 1);
    let list = list_clients(&hub);
    assert_eq!(list.len(), 2);
    assert_eq!(list[0].format, StreamFormat::Json);
    assert_eq!(list[1].format, StreamFormat::Cbor);
    assert!(list[0].last_ping >= list[0].connected_at);
    remove_client_snapshot(&mut hub, 1);
    let list = list_clients(&hub);
    assert_eq!(list.len(), 1);
    assert_eq!(list[0].id, 2);
    set_default_format(&mut hub, StreamFormat::Cbor);
    assert_eq!(hub.default_format(), StreamFormat::Cbor);
    assert_eq!(StreamFormat::default(), StreamFormat::Json);
}

#[test]
fn updates_touch_only_the_first_client_with_the_id() {
    let mut hub = ClientRegistry::new();
    register_client_snapshot(&mut hub, client(5, "a"));
    register_client_snapshot(&mut hub, client(5, "b"));
    update_client_format(&mut hub, 5, StreamFormat::Cbor);
    update_client_format(&mut hub, 9, StreamFormat::Cbor);
    let list = list_clients(&hub);
    assert_eq!(list[0].format, StreamFormat::Cbor);
    assert_eq!(list[1].format, StreamFormat::Json);
    remove_client_snapshot(&mut hub, 5);
    assert!(list_clients(&hub).is_empty());
}

#[test]
fn client_report_lines() {
    let mut c = client(7, "127.0.0.1:9");
    c.format = StreamFormat::Cbor;
    assert_eq!(format_client_line(&c, 12), "id=7 addr=127.0.0.1:9 connected=12s ago format=Cbor");
    let lines = format_clients(&[c.clone(), client(8, "x")]);
    assert_eq!(lines.len(), 2);
    assert_eq!(lines[0], "id=7 addr=127.0.0.1:9 connected=0s ago format=Cbor");
    assert_eq!(lines[1], "id=8 addr=x connected=0s ago format=Json");
}

#[test]
fn wire_keys_shorten_and_expand() {
    assert_eq!(shorten_key("command"), "cmd");
    assert_eq!(shorten_key("query"), "q");
    assert_eq!(shorten_key("data"), "d");
    assert_eq!(shorten_key("pattern"), "p");
    assert_eq!(shorten_key("meta"), "m");
    assert_eq!(shorten_key("source"), "src");
    assert_eq!(shorten_key("id"), "id");
    assert_eq!(shorten_key("strength"), "strength");
    assert_eq!(expand_key("d"), "data");
    assert_eq!(expand_key("mt"), "metrics");
    assert_eq!(expand_key("cmd"), "cmd");
    assert_eq!(expand_key("strength"), "strength");
    for k in ["data", "pattern", "format", "events", "metrics", "meta", "source", "cmd", "q", "id", "dt", "x"] {
        assert_eq!(expand_key(&shorten_key(k)), k);
    }
    assert_eq!(expand_key(&shorten_key("command")), "cmd");
}

#[test]
fn a_registered_client_stays_listed_until_removed() {
    let mut hub = ClientRegistry::new();
    let first = client(7, "10.0.0.7:9000");
    let connected = first.connected_at;
    register_client_snapshot(&mut hub, first);
    register_client_snapshot(&mut hub, client(8, "10.0.0.8:9000"));
    update_client_ping(&mut hub, 7);
    update_client_format(&mut hub, 7, StreamFormat::Cbor);
    remove_client_snapshot(&mut hub, 8);
    set_default_format(&mut hub, StreamFormat::Cbor);
    let list = list_clients(&hub);
    assert!(list.iter().any(|c| c.id == 7 && c.addr == "10.0.0.7:9000" && c.connected_at == connected));
    assert!(list.iter().all(|c| c.id != 8));
    remove_client_snapshot(&mut hub, 7);
    assert!(list_clients(&hub).iter().all(|c| c.id != 7));
}
