use logdrop::dispatch::route;
use logdrop::elasticsearch::ElasticsearchOutput;
use logdrop::elasticsearch::Event;
use logdrop::files::FileOutput;
use logdrop::json::Number;
use logdrop::logger::Level;
use logdrop::logging::verbosity;
use logdrop::logging::LogLevel;
use logdrop::logging::Logger;
use logdrop::null::Null;
use logdrop::tcp::TcpInput;
use logdrop::Record;
use logdrop::RecordItem;

fn record_with_message() -> Record {
    let mut r = Record::new();
    r.insert("message".to_string(), RecordItem::String("hello".to_string()));
    r.insert("source".to_string(), RecordItem::String("unit".to_string()));
    r
}

#[test]
fn dispatcher_drops_records_without_message() {
    let mut r = Record::new();
    r.insert("source".to_string(), RecordItem::String("unit".to_string()));
    assert!(route(&r, 3).is_none());
}

#[test]
fn dispatcher_clones_accepted_records_per_output() {
    let r = record_with_message();
    let fanned = route(&r, 3).unwrap();
    assert_eq!(3, fanned.len());
    for copy in fanned.iter() {
        assert!(matches!(copy.find("message"), Some(RecordItem::String(s)) if s == "hello"));
        assert!(matches!(copy.find("source"), Some(RecordItem::String(s)) if s == "unit"));
    }
}

#[test]
fn file_sink_resolves_paths_and_messages() {
    let sink = FileOutput::new("/tmp/{source}-drop.log", "[{source}]: {message}");
    let r = record_with_message();
    assert_eq!("/tmp/unit-drop.log".to_string(), sink.resolve_path(&r).unwrap());
    assert_eq!("[unit]: hello".to_string(), sink.resolve_message(&r).unwrap());
}

#[test]
fn file_sink_drops_records_that_do_not_resolve() {
    let sink = FileOutput::new("/tmp/{missing}.log", "{message}");
    let r = record_with_message();
    assert!(sink.resolve_path(&r).is_err());
}

#[test]
fn same_file_identity_reuses_one_cached_handle() {
    let mut sink = FileOutput::new("/tmp/a.log", "{message}");
    // Two different path strings can resolve to one identity; the cache is
    // keyed by that identity, so the second acquisition opens nothing.
    assert_eq!((0, true), sink.acquire(4242));
    assert_eq!((0, false), sink.acquire(4242));
    assert_eq!((1, true), sink.acquire(7));
    assert_eq!((0, false), sink.acquire(4242));
}

#[test]
fn batch_sink_flushes_once_on_timeout_below_capacity() {
    let mut sink = ElasticsearchOutput::new(3);
    assert_eq!((None, false), sink.handle(Event::Chunk("a".to_string())));
    assert_eq!((None, false), sink.handle(Event::Chunk("b".to_string())));
    let (payload, reset) = sink.handle(Event::Timeout);
    assert!(!reset);
    assert_eq!(
        Some("{\"index\":{}}\na\n{\"index\":{}}\nb\n".to_string()),
        payload
    );
    // The queue is now empty: a redundant timeout flushes nothing.
    assert_eq!((None, false), sink.handle(Event::Timeout));
}

#[test]
fn batch_sink_flushes_immediately_at_capacity() {
    let mut sink = ElasticsearchOutput::new(2);
    assert_eq!((None, false), sink.handle(Event::Chunk("a".to_string())));
    let (payload, reset) = sink.handle(Event::Chunk("b".to_string()));
    assert!(reset);
    assert_eq!(
        Some("{\"index\":{}}\na\n{\"index\":{}}\nb\n".to_string()),
        payload
    );
}

#[test]
fn records_serialize_with_escapes_and_numbers() {
    let mut r = Record::new();
    r.insert("message".to_string(), RecordItem::String("hi\n\"there\"".to_string()));
    r.insert("n".to_string(), RecordItem::Number(Number::from_u64(42)));
    let mut inner = Vec::new();
    inner.push(("flag".to_string(), RecordItem::Bool(true)));
    r.insert("meta".to_string(), RecordItem::Object(inner));
    r.insert("tags".to_string(), RecordItem::Array(vec![RecordItem::Null]));
    assert_eq!(
        "{\"message\":\"hi\\n\\\"there\\\"\",\"n\":42,\"meta\":{\"flag\":true},\"tags\":[null]}",
        r.to_json()
    );
}

#[test]
fn null_output_consumes_without_effect() {
    let mut out = Null;
    out.feed(&record_with_message());
}

#[test]
fn tcp_input_keeps_its_endpoint() {
    let input = TcpInput::new("::".to_string(), 10053);
    assert_eq!("::", input.host);
    assert_eq!(10053, input.port);
}

#[test]
fn logger_levels_rank_and_print() {
    assert_eq!(Some(0), Level::Debug.to_i64());
    assert_eq!(Some(1), Level::Info.to_i64());
    assert_eq!(Some(2), Level::Warn.to_i64());
    assert_eq!(Some(2), Level::Warn.to_u64());

    assert_eq!("T", verbosity(LogLevel::Trace));
    assert_eq!("E", verbosity(LogLevel::Error));

    let logger = Logger::new(LogLevel::Info);
    assert!(logger.enabled(LogLevel::Error));
    assert!(logger.enabled(LogLevel::Info));
    assert!(!logger.enabled(LogLevel::Debug));
}

#[test]
fn later_bindings_of_a_field_win() {
    let mut r = Record::new();
    r.insert("k".to_string(), RecordItem::String("first".to_string()));
    r.insert("k".to_string(), RecordItem::String("second".to_string()));
    assert!(matches!(r.find("k"), Some(RecordItem::String(s)) if s == "second"));
}
