use vstd::prelude::*;
use vstd::string::StringExecFns;

use crate::anchor::{anchor_of, anchor_hash, ensure_anchor};
use crate::codec::{encode_entry, entry_fits, lemma_decode_encode};
use crate::entry::{strings_view, ChannelView, Entry, EntryView, RssChannel};
use crate::store::{lemma_create_link_live, lemma_put, EntryHash, Link, LinkView, Store, StoreView};

verus! {

/// The name of the anchor that every channel is linked from.
pub const RSS_CHANNELS_ROOT_PATH: &'static str = "rss_channels";

/// The path of the channel directory's anchor.
pub open spec fn channels_root() -> Seq<Seq<char>> {
    seq![RSS_CHANNELS_ROOT_PATH@]
}

/// The address of the channel directory.
pub open spec fn directory() -> Seq<u8> {
    anchor_of(channels_root())
}

pub fn channels_root_path() -> (r: Vec<String>)
    ensures
        strings_view(r@) == channels_root(),
{
    let mut r: Vec<String> = Vec::new();
    r.push(String::from_str(RSS_CHANNELS_ROOT_PATH));
    assert(strings_view(r@) =~= channels_root());
    r
}

/// Materializes the channel directory's anchor.
pub fn init(store: &mut Store)
    requires
        old(store)@.wf(),
    ensures
        final(store)@ == old(store)@.put(directory()),
        final(store)@.wf(),
{
    let path = channels_root_path();
    ensure_anchor(store, &path);
}

/// A channel to register.
#[derive(Debug, Clone, PartialEq, Eq)]
pub struct CreateRssChannelRequest(pub RssChannel);

/// The channels found in the directory.
#[derive(Debug, Clone, PartialEq, Eq)]
pub struct FetchRssChannelsResponse(pub Vec<RssChannel>);

/// The store after channel `c` is stored and linked from the directory by an untagged edge.
pub open spec fn register_channel_spec(s: StoreView, c: ChannelView) -> StoreView {
    let h = encode_entry(EntryView::Channel(c));
    s.put(h).create_link(directory(), h, Seq::empty())
}

/// Stores the channel and links it from the directory; returns the channel's address.
pub fn create_rss_channel(store: &mut Store, request: CreateRssChannelRequest) -> (r: EntryHash)
    requires
        old(store)@.wf(),
    ensures
        r@ == encode_entry(EntryView::Channel(request.0@)),
        final(store)@ == register_channel_spec(old(store)@, request.0@),
        final(store)@.wf(),
{
    let CreateRssChannelRequest(channel) = request;
    let channel_hash = store.put(&Entry::Channel(channel));
    let path_hash = anchor_hash(&channels_root_path());
    let empty: Vec<u8> = Vec::new();
    store.create_link(&path_hash, &channel_hash, empty.as_slice());
    channel_hash
}

/// The records that the targets of `links` resolve to in `s`, in order; targets that `s`
/// does not hold are skipped.
pub open spec fn entries_at(s: StoreView, links: Seq<LinkView>) -> Seq<EntryView>
    decreases links.len(),
{
    if links.len() == 0 {
        Seq::empty()
    } else {
        let prev = entries_at(s, links.drop_last());
        match s.get(links.last().target) {
            Some(e) => prev.push(e),
            None => prev,
        }
    }
}

/// The channels among `entries`, in order.
pub open spec fn channels_in(entries: Seq<EntryView>) -> Seq<ChannelView>
    decreases entries.len(),
{
    if entries.len() == 0 {
        Seq::empty()
    } else {
        let prev = channels_in(entries.drop_last());
        match entries.last() {
            EntryView::Channel(c) => prev.push(c),
            _ => prev,
        }
    }
}

/// The channels that the directory links to and that `s` holds.
pub open spec fn list_channels_spec(s: StoreView) -> Seq<ChannelView> {
    channels_in(entries_at(s, s.live_links(directory(), None)))
}

pub open spec fn entries_view(v: Seq<Entry>) -> Seq<EntryView> {
    v.map_values(|e: Entry| e@)
}

pub open spec fn links_view(v: Seq<Link>) -> Seq<LinkView> {
    v.map_values(|l: Link| l@)
}

pub open spec fn channels_view(v: Seq<RssChannel>) -> Seq<ChannelView> {
    v.map_values(|c: RssChannel| c@)
}

/// Resolves the target of each edge, keeping those that the store holds.
pub fn get_app_entries(store: &Store, links: &Vec<Link>) -> (r: Vec<Entry>)
    ensures
        entries_view(r@) == entries_at(store@, links_view(links@)),
{
    let mut r: Vec<Entry> = Vec::new();
    let mut i: usize = 0;
    while i < links.len()
        invariant
            i <= links@.len(),
            entries_view(r@) == entries_at(store@, links_view(links@.take(i as int))),
        decreases links@.len() - i,
    {
        let ghost prev = r@;
        let got = store.get(&links[i].target);
        proof {
            let lv = links_view(links@.take(i + 1));
            assert(links@.take(i + 1) =~= links@.take(i as int).push(links@[i as int]));
            assert(lv.drop_last() =~= links_view(links@.take(i as int)));
            assert(lv.last() == links@[i as int]@);
        }
        match got {
            Some(e) => {
                r.push(e);
                assert(entries_view(r@) =~= entries_view(prev).push(e@));
            },
            None => {},
        }
        i = i + 1;
    }
    assert(links@.take(i as int) =~= links@);
    r
}

/// Lists the channels that the directory links to, skipping any this store does not hold.
pub fn fetch_rss_channels(store: &Store) -> (r: FetchRssChannelsResponse)
    requires
        store@.wf(),
    ensures
        channels_view(r.0@) == list_channels_spec(store@),
{
    let path_hash = anchor_hash(&channels_root_path());
    let links = store.get_links(&path_hash, None);
    let entries = get_app_entries(store, &links);
    let mut channels: Vec<RssChannel> = Vec::new();
    let mut i: usize = 0;
    while i < entries.len()
        invariant
            i <= entries@.len(),
            channels_view(channels@) == channels_in(entries_view(entries@.take(i as int))),
        decreases entries@.len() - i,
    {
        let ghost prev = channels@;
        proof {
            let ev = entries_view(entries@.take(i + 1));
            assert(entries@.take(i + 1) =~= entries@.take(i as int).push(entries@[i as int]));
            assert(ev.drop_last() =~= entries_view(entries@.take(i as int)));
            assert(ev.last() == entries@[i as int]@);
        }
        match &entries[i] {
            Entry::Channel(c) => {
                channels.push(c.clone_channel());
                assert(channels_view(channels@) =~= channels_view(prev).push(c@));
            },
            _ => {},
        }
        i = i + 1;
    }
    assert(entries@.take(i as int) =~= entries@);
    FetchRssChannelsResponse(channels)
}

impl RssChannel {
    pub fn clone_channel(&self) -> (r: RssChannel)
        ensures
            r@ == self@,
    {
        RssChannel {
            uuid: self.uuid.clone(),
            title: self.title.clone(),
            link: self.link.clone(),
            description: self.description.clone(),
        }
    }
}

/// Registering a channel makes it the last channel the directory lists, every field intact.
pub proof fn lemma_registered_channel_listed(s: StoreView, c: ChannelView)
    requires
        s.wf(),
        entry_fits(EntryView::Channel(c)),
    ensures
        list_channels_spec(register_channel_spec(s, c)).len() > 0,
        list_channels_spec(register_channel_spec(s, c)).last() == c,
{
    let h = encode_entry(EntryView::Channel(c));
    let p = s.put(h);
    let t = register_channel_spec(s, c);
    lemma_put(s, h);
    lemma_create_link_live(p, directory(), h, Seq::empty(), directory(), None);
    lemma_decode_encode(EntryView::Channel(c));
    let links = t.live_links(directory(), None);
    assert(links.last().target == h);
    assert(t.entries == p.entries);
    assert(t.get(h) == Some(EntryView::Channel(c)));
    let entries = entries_at(t, links);
    assert(entries.last() == EntryView::Channel(c));
}

} // verus!
