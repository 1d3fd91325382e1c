use vstd::prelude::*;

verus! {

/// The agent that publishes channels, by its public key.
#[derive(Debug, Clone, PartialEq, Eq)]
pub struct RssPublisher {
    pub agent_key: Vec<u8>,
}

/// A channel: the caller's identifier and its metadata.
#[derive(Debug, Clone, PartialEq, Eq)]
pub struct RssChannel {
    pub uuid: String,
    pub title: String,
    pub link: String,
    pub description: String,
}

/// An item published under a channel.
#[derive(Debug, Clone, PartialEq, Eq)]
pub struct RssItem {
    pub uuid: String,
    pub title: Option<String>,
    pub link: Option<String>,
    pub description: Option<String>,
    pub author: Option<String>,
}

/// Every kind of record that the store holds.
#[derive(Debug, Clone, PartialEq, Eq)]
pub enum Entry {
    /// An anchor: a zero-payload record named by its path components.
    Path(Vec<String>),
    Publisher(RssPublisher),
    Channel(RssChannel),
    Item(RssItem),
}

pub struct ChannelView {
    pub uuid: Seq<char>,
    pub title: Seq<char>,
    pub link: Seq<char>,
    pub description: Seq<char>,
}

pub struct ItemView {
    pub uuid: Seq<char>,
    pub title: Option<Seq<char>>,
    pub link: Option<Seq<char>>,
    pub description: Option<Seq<char>>,
    pub author: Option<Seq<char>>,
}

pub enum EntryView {
    Path(Seq<Seq<char>>),
    Publisher(Seq<u8>),
    Channel(ChannelView),
    Item(ItemView),
}

pub open spec fn opt_view(o: Option<String>) -> Option<Seq<char>> {
    match o {
        Some(s) => Some(s@),
        None => None,
    }
}

pub open spec fn strings_view(v: Seq<String>) -> Seq<Seq<char>> {
    v.map_values(|s: String| s@)
}

impl View for RssPublisher {
    type V = Seq<u8>;

    open spec fn view(&self) -> Seq<u8> {
        self.agent_key@
    }
}

impl View for RssChannel {
    type V = ChannelView;

    open spec fn view(&self) -> ChannelView {
        ChannelView {
            uuid: self.uuid@,
            title: self.title@,
            link: self.link@,
            description: self.description@,
        }
    }
}

impl View for RssItem {
    type V = ItemView;

    open spec fn view(&self) -> ItemView {
        ItemView {
            uuid: self.uuid@,
            title: opt_view(self.title),
            link: opt_view(self.link),
            description: opt_view(self.description),
            author: opt_view(self.author),
        }
    }
}

impl View for Entry {
    type V = EntryView;

    open spec fn view(&self) -> EntryView {
        match self {
            Entry::Path(p) => EntryView::Path(strings_view(p@)),
            Entry::Publisher(p) => EntryView::Publisher(p@),
            Entry::Channel(c) => EntryView::Channel(c@),
            Entry::Item(i) => EntryView::Item(i@),
        }
    }
}

} // verus!
