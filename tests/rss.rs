use holochain_rss::anchor::{anchor_hash, ensure_anchor};
use holochain_rss::chain::{
    append_item, create_rss_item, fetch_rss_items, get_channel_path, get_rss_head_item_link,
    get_rss_head_item_links,
    list_items, splice_item, CreateRssItemRequest, FetchRssItemsRequest,
};
use holochain_rss::directory::{
    channels_root_path, create_rss_channel, fetch_rss_channels, init, CreateRssChannelRequest,
    FetchRssChannelsResponse,
};
use holochain_rss::entry::{Entry, RssChannel, RssItem, RssPublisher};
use holochain_rss::store::{hash_entry, EntryHash, Store};

fn channel(uuid: &str, title: &str, link: &str, description: &str) -> RssChannel {
    RssChannel {
        uuid: uuid.to_string(),
        title: title.to_string(),
        link: link.to_string(),
        description: description.to_string(),
    }
}

fn item(uuid: &str) -> RssItem {
    RssItem {
        uuid: uuid.to_string(),
        title: Some(format!("title of {}", uuid)),
        link: None,
        description: Some(String::new()),
        author: None,
    }
}

fn new_channel(store: &mut Store, uuid: &str) -> EntryHash {
    create_rss_channel(store, CreateRssChannelRequest(channel(uuid, "T", "L", "D")))
}

fn head_count(store: &Store, channel_hash: &EntryHash) -> usize {
    store.get_links(channel_hash, Some(b"head".as_slice())).len()
}

#[test]
fn can_install_app_and_fetch_channels() {
    let mut store = Store::new();
    init(&mut store);
    let rss_channel = RssChannel {
        uuid: String::new(),
        title: "My RSS Channel".to_string(),
        link: "https://holopod.host/my-rss-channel.xml".to_string(),
        description: "Welcome to the Holochain distributed RSS channel!".to_string(),
    };
    let _ = create_rss_channel(&mut store, CreateRssChannelRequest(rss_channel));
    let FetchRssChannelsResponse(rss_channels) = fetch_rss_channels(&store);
    assert!(rss_channels.len() > 0);
}

#[test]
fn registered_channel_is_listed() {
    let mut store = Store::new();
    init(&mut store);
    let c1 = channel("c1", "T", "L", "D");
    create_rss_channel(&mut store, CreateRssChannelRequest(c1.clone()));
    let FetchRssChannelsResponse(channels) = fetch_rss_channels(&store);
    assert_eq!(channels, vec![c1]);
}

#[test]
fn channels_listed_in_registration_order() {
    let mut store = Store::new();
    let a = channel("a", "A", "la", "da");
    let b = channel("b", "B", "lb", "db");
    create_rss_channel(&mut store, CreateRssChannelRequest(a.clone()));
    create_rss_channel(&mut store, CreateRssChannelRequest(b.clone()));
    assert_eq!(fetch_rss_channels(&store).0, vec![a, b]);
}

#[test]
fn empty_directory_lists_nothing() {
    let store = Store::new();
    assert_eq!(fetch_rss_channels(&store).0, Vec::<RssChannel>::new());
}

#[test]
fn unresolved_channel_targets_are_skipped() {
    let mut store = Store::new();
    let missing = hash_entry(&Entry::Channel(channel("gone", "G", "lg", "dg")));
    let root = anchor_hash(&channels_root_path());
    store.create_link(&root, &missing, &[]);
    let kept = channel("kept", "K", "lk", "dk");
    create_rss_channel(&mut store, CreateRssChannelRequest(kept.clone()));
    assert_eq!(fetch_rss_channels(&store).0, vec![kept]);
}

#[test]
fn two_items_listed_newest_first() {
    let mut store = Store::new();
    let c1 = new_channel(&mut store, "c1");
    append_item(&mut store, &c1, item("i1"));
    append_item(&mut store, &c1, item("i2"));
    assert_eq!(list_items(&store, &c1), vec![item("i2"), item("i1")]);
}

#[test]
fn three_item_chain_has_length_three() {
    let mut store = Store::new();
    let c1 = new_channel(&mut store, "c1");
    for uuid in ["i1", "i2", "i3"] {
        append_item(&mut store, &c1, item(uuid));
    }
    let listed = list_items(&store, &c1);
    assert_eq!(listed.len(), 3);
    assert_eq!(listed, vec![item("i3"), item("i2"), item("i1")]);
}

#[test]
fn many_sequential_appends_listed_in_reverse() {
    let mut store = Store::new();
    let c = new_channel(&mut store, "c");
    let uuids: Vec<String> = (0..12).map(|i| format!("item-{}", i)).collect();
    for u in &uuids {
        append_item(&mut store, &c, item(u));
    }
    let expected: Vec<RssItem> = uuids.iter().rev().map(|u| item(u)).collect();
    assert_eq!(list_items(&store, &c), expected);
}

#[test]
fn exactly_one_head_after_each_append() {
    let mut store = Store::new();
    let c = new_channel(&mut store, "c");
    assert_eq!(head_count(&store, &c), 0);
    for uuid in ["a", "b", "c", "d"] {
        let h = append_item(&mut store, &c, item(uuid));
        assert_eq!(head_count(&store, &c), 1);
        let head = get_rss_head_item_link(&store, &c).unwrap();
        assert_eq!(head.target, h);
    }
}

#[test]
fn fan_out_edges_reach_every_item() {
    let mut store = Store::new();
    let c = new_channel(&mut store, "c");
    append_item(&mut store, &c, item("x"));
    append_item(&mut store, &c, item("y"));
    assert_eq!(store.get_links(&c, Some(b"item".as_slice())).len(), 2);
}

#[test]
fn channel_without_items_lists_nothing() {
    let mut store = Store::new();
    let c = new_channel(&mut store, "c");
    assert_eq!(list_items(&store, &c), Vec::<RssItem>::new());
}

#[test]
fn concurrent_appends_to_empty_channel_list_one_item() {
    let mut store = Store::new();
    let c = new_channel(&mut store, "c");
    let h1 = store.put(&Entry::Item(item("i1")));
    let h2 = store.put(&Entry::Item(item("i2")));
    store.create_link(&c, &h1, b"item");
    store.create_link(&c, &h2, b"item");
    let seen1 = get_rss_head_item_links(&store, &c);
    let seen2 = get_rss_head_item_links(&store, &c);
    assert!(seen1.is_empty() && seen2.is_empty());
    splice_item(&mut store, &c, &h1, seen1);
    splice_item(&mut store, &c, &h2, seen2);
    assert_eq!(head_count(&store, &c), 2);
    let listed = list_items(&store, &c);
    assert_eq!(listed.len(), 1);
    assert!(listed[0] == item("i1") || listed[0] == item("i2"));
    assert_eq!(store.get_links(&c, Some(b"item".as_slice())).len(), 2);
}

#[test]
fn items_by_channel_uuid() {
    let mut store = Store::new();
    create_rss_item(&mut store, CreateRssItemRequest(item("first"), "feed".to_string()));
    create_rss_item(&mut store, CreateRssItemRequest(item("second"), "feed".to_string()));
    create_rss_item(&mut store, CreateRssItemRequest(item("other"), "elsewhere".to_string()));
    let listed = fetch_rss_items(&store, FetchRssItemsRequest("feed".to_string())).0;
    assert_eq!(listed, vec![item("second"), item("first")]);
    let none = fetch_rss_items(&store, FetchRssItemsRequest("unknown".to_string())).0;
    assert!(none.is_empty());
}

#[test]
fn unresolved_item_truncates_listing() {
    let mut store = Store::new();
    let c = new_channel(&mut store, "c");
    let ghost_item = hash_entry(&Entry::Item(item("never stored")));
    store.create_link(&c, &ghost_item, b"head");
    assert!(list_items(&store, &c).is_empty());
}

#[test]
fn anchor_hash_is_deterministic() {
    let p = get_channel_path("c1".to_string());
    assert_eq!(anchor_hash(&p), anchor_hash(&p));
    assert_eq!(anchor_hash(&p), anchor_hash(&get_channel_path("c1".to_string())));
    assert_ne!(anchor_hash(&p), anchor_hash(&get_channel_path("c2".to_string())));
}

#[test]
fn anchor_hash_exact_bytes() {
    let h = anchor_hash(&vec!["a".to_string()]);
    assert_eq!(h.0, vec![0, 0, 0, 0, 0, 0, 0, 0, 1, 0, 0, 0, 0, 0, 0, 0, 1, 97]);
}

#[test]
fn ensure_anchor_twice_stores_one_record() {
    let mut store = Store::new();
    let p = channels_root_path();
    let a = ensure_anchor(&mut store, &p);
    assert_eq!(store.entry_count(), 1);
    let b = ensure_anchor(&mut store, &p);
    assert_eq!(a, b);
    assert_eq!(store.entry_count(), 1);
    assert_eq!(store.get(&a), Some(Entry::Path(p)));
}

#[test]
fn putting_same_record_twice_is_a_no_op() {
    let mut store = Store::new();
    let e = Entry::Channel(channel("c", "t", "l", "d"));
    let a = store.put(&e);
    let b = store.put(&e);
    assert_eq!(a, b);
    assert_eq!(store.entry_count(), 1);
}

#[test]
fn delete_link_is_idempotent() {
    let mut store = Store::new();
    let a = hash_entry(&Entry::Path(vec!["a".to_string()]));
    let b = hash_entry(&Entry::Path(vec!["b".to_string()]));
    let id = store.create_link(&a, &b, b"t");
    assert_eq!(store.get_links(&a, None).len(), 1);
    store.delete_link(id);
    assert!(store.get_links(&a, None).is_empty());
    store.delete_link(id);
    store.delete_link(99);
    assert!(store.get_links(&a, None).is_empty());
    assert_eq!(store.link_count(), 1);
}

#[test]
fn round_trip_every_record_kind() {
    let records = vec![
        Entry::Path(vec![]),
        Entry::Path(vec!["rss_channel_".to_string(), "ünïcødé ✓".to_string()]),
        Entry::Publisher(RssPublisher { agent_key: vec![0, 255, 7, 42] }),
        Entry::Channel(channel("c1", "T", "L", "D")),
        Entry::Channel(channel("", "", "", "")),
        Entry::Item(item("i1")),
        Entry::Item(RssItem {
            uuid: "日本".to_string(),
            title: None,
            link: Some("https://example.org/x".to_string()),
            description: None,
            author: Some("ana".to_string()),
        }),
    ];
    for r in records {
        let bytes = r.encode();
        assert_eq!(Entry::decode(&bytes), Some(r.clone()));
        assert_eq!(Entry::decode(&bytes).unwrap().encode(), bytes);
    }
}

#[test]
fn decode_rejects_malformed_input() {
    assert_eq!(Entry::decode(&[]), None);
    assert_eq!(Entry::decode(&[9]), None);
    let mut bytes = Entry::Channel(channel("c", "t", "l", "d")).encode();
    bytes.push(0);
    assert_eq!(Entry::decode(&bytes), None);
    bytes.truncate(bytes.len() - 3);
    assert_eq!(Entry::decode(&bytes), None);
    let bad_utf8 = vec![3, 0, 0, 0, 0, 0, 0, 0, 1, 0xff, 0, 0, 0, 0];
    assert_eq!(Entry::decode(&bad_utf8), None);
    let bad_option = vec![3, 0, 0, 0, 0, 0, 0, 0, 1, b'u', 2, 0, 0, 0];
    assert_eq!(Entry::decode(&bad_option), None);
}

#[test]
fn decode_reads_non_ascii_text() {
    let bytes = vec![2, 0, 0, 0, 0, 0, 0, 0, 2, 0xc3, 0xa9, 0, 0, 0, 0, 0, 0, 0, 0, 0, 0, 0, 0, 0,
        0, 0, 0, 0, 0, 0, 0, 0, 0, 0, 0];
    assert_eq!(Entry::decode(&bytes), Some(Entry::Channel(channel("é", "", "", ""))));
}

#[test]
fn doubled_head_heals_on_next_append() {
    let mut store = Store::new();
    let c = new_channel(&mut store, "c");
    let h1 = append_item(&mut store, &c, item("x1"));
    // an append of x2 that published its head but stopped before retracting the old one
    let h2 = store.put(&Entry::Item(item("x2")));
    store.create_link(&c, &h2, b"item");
    store.create_link(&h2, &h1, &[]);
    store.create_link(&c, &h2, b"head");
    assert_eq!(head_count(&store, &c), 2);
    let h3 = append_item(&mut store, &c, item("x3"));
    assert_eq!(head_count(&store, &c), 1);
    assert_eq!(get_rss_head_item_link(&store, &c).unwrap().target, h3);
    assert_eq!(list_items(&store, &c), vec![item("x3"), item("x2"), item("x1")]);
}

#[test]
fn splice_chains_to_newest_observed_head() {
    let mut store = Store::new();
    let c = new_channel(&mut store, "c");
    let a = store.put(&Entry::Item(item("a")));
    let b = store.put(&Entry::Item(item("b")));
    let n = store.put(&Entry::Item(item("n")));
    store.create_link(&c, &a, b"head");
    store.create_link(&c, &b, b"head");
    let seen = get_rss_head_item_links(&store, &c);
    assert_eq!(seen.len(), 2);
    splice_item(&mut store, &c, &n, seen);
    let heads = get_rss_head_item_links(&store, &c);
    assert_eq!(heads.len(), 1);
    assert_eq!(heads[0].target, n);
    let chained = store.get_links(&n, Some(&[]));
    assert_eq!(chained.len(), 1);
    assert_eq!(chained[0].target, b);
}
