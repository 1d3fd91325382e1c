use vstd::prelude::*;
use vstd::string::StringExecFns;

use crate::anchor::{anchor_hash, anchor_of, ensure_anchor};
use crate::codec::{encode_entry, entry_fits, lemma_decode_encode};
use crate::entry::{strings_view, Entry, EntryView, ItemView, RssItem};
use crate::directory::links_view;
use crate::store::{
    lemma_create_link_live, lemma_delete_links_frame, lemma_live_links_nonempty, lemma_put, lemma_delete_link_first, lemma_live_links_members, lemma_delete_link_other, EntryHash, Link,
    LinkView, Store, StoreView,
};

verus! {

/// The first component of every channel's anchor path.
pub const RSS_CHANNEL_PATH_PREFIX: &'static str = "rss_channel_";

/// The tag of the edge from a channel to its most recent item: `head`.
pub open spec fn head_tag() -> Seq<u8> {
    seq![104u8, 101u8, 97u8, 100u8]
}

/// The tag of the fan-out edges from a channel to each of its items: `item`.
pub open spec fn item_tag() -> Seq<u8> {
    seq![105u8, 116u8, 101u8, 109u8]
}

/// The tag of the edge from an item to the one created before it: empty.
pub open spec fn chain_tag() -> Seq<u8> {
    Seq::empty()
}

fn rss_head_item_tag() -> (r: Vec<u8>)
    ensures
        r@ == head_tag(),
{
    let mut r: Vec<u8> = Vec::new();
    r.push(104u8);
    r.push(101u8);
    r.push(97u8);
    r.push(100u8);
    assert(r@ =~= head_tag());
    r
}

fn rss_item_tag() -> (r: Vec<u8>)
    ensures
        r@ == item_tag(),
{
    let mut r: Vec<u8> = Vec::new();
    r.push(105u8);
    r.push(116u8);
    r.push(101u8);
    r.push(109u8);
    assert(r@ =~= item_tag());
    r
}

/// The path of the anchor that stands for the channel with `uuid`.
pub open spec fn channel_path(uuid: Seq<char>) -> Seq<Seq<char>> {
    seq![RSS_CHANNEL_PATH_PREFIX@, uuid]
}

pub fn get_channel_path(uuid: String) -> (r: Vec<String>)
    ensures
        strings_view(r@) == channel_path(uuid@),
{
    let mut r: Vec<String> = Vec::new();
    r.push(String::from_str(RSS_CHANNEL_PATH_PREFIX));
    r.push(uuid);
    assert(strings_view(r@) =~= channel_path(uuid@));
    r
}

/// The live head edges of channel `c`.
pub open spec fn head_links(s: StoreView, c: Seq<u8>) -> Seq<LinkView> {
    s.live_links(c, Some(head_tag()))
}

/// The head edge that a reader of `s` finds for channel `c`: the first live one.
pub open spec fn first_head(s: StoreView, c: Seq<u8>) -> Option<LinkView> {
    if head_links(s, c).len() > 0 {
        Some(head_links(s, c)[0])
    } else {
        None
    }
}

/// The item created before `h`: the target of its first live untagged edge.
pub open spec fn next_of(s: StoreView, h: Seq<u8>) -> Option<Seq<u8>> {
    let out = s.live_links(h, Some(chain_tag()));
    if out.len() > 0 {
        Some(out[0].target)
    } else {
        None
    }
}

/// The items met by following the chain from `h`, at most `fuel` of them; the walk stops
/// at an item with no chain edge or at an address that `s` does not hold as an item.
pub open spec fn chain_from(s: StoreView, h: Seq<u8>, fuel: nat) -> Seq<ItemView>
    decreases fuel,
{
    if fuel == 0 {
        Seq::empty()
    } else {
        match s.get(h) {
            Some(EntryView::Item(i)) => seq![i] + match next_of(s, h) {
                Some(n) => chain_from(s, n, (fuel - 1) as nat),
                None => Seq::empty(),
            },
            _ => Seq::empty(),
        }
    }
}

/// The items of channel `c`, newest first: the chain from its head, bounded by the number of
/// edges in the log.
pub open spec fn list_items_spec(s: StoreView, c: Seq<u8>) -> Seq<ItemView> {
    match first_head(s, c) {
        Some(l) => chain_from(s, l.target, s.link_count()),
        None => Seq::empty(),
    }
}

/// How many writes a splice makes: the head edge alone where no head was read; otherwise the
/// chain edge, the new head edge, and one deletion for each head read.
pub open spec fn splice_len(observed: Seq<LinkView>) -> nat {
    if observed.len() == 0 {
        1
    } else {
        observed.len() + 2
    }
}

/// The store after the first `k` writes of making `item` the head of channel `c`, given the
/// head edges read before (`observed`, oldest first). With none, the head edge is created.
/// Otherwise the chain edge to the newest read head's target is created, then the new head
/// edge, and only then is each read head deleted, so that a reader never finds the channel
/// without a head.
pub open spec fn splice_state(
    s: StoreView,
    c: Seq<u8>,
    item: Seq<u8>,
    observed: Seq<LinkView>,
    k: nat,
) -> StoreView {
    if observed.len() == 0 {
        s.create_link(c, item, head_tag())
    } else {
        let chained = s.create_link(item, observed.last().target, chain_tag());
        if k <= 1 {
            chained
        } else {
            chained.create_link(c, item, head_tag()).delete_links(observed.take(k - 2))
        }
    }
}

/// The store after a whole splice.
pub open spec fn splice_spec(
    s: StoreView,
    c: Seq<u8>,
    item: Seq<u8>,
    observed: Seq<LinkView>,
) -> StoreView {
    splice_state(s, c, item, observed, splice_len(observed))
}

/// The store after the edges for a new `item` of channel `c` are written: the fan-out edge,
/// then the read of every live head and the splice.
pub open spec fn link_item_spec(s: StoreView, c: Seq<u8>, item: Seq<u8>) -> StoreView {
    let s1 = s.create_link(c, item, item_tag());
    splice_spec(s1, c, item, head_links(s1, c))
}

/// The address of an item.
pub open spec fn item_address(i: ItemView) -> Seq<u8> {
    encode_entry(EntryView::Item(i))
}

/// The store after item `i` is appended to the channel at address `c`.
pub open spec fn append_spec(s: StoreView, c: Seq<u8>, i: ItemView) -> StoreView {
    link_item_spec(s.put(item_address(i)), c, item_address(i))
}

/// The store after item `i` is appended to the channel whose anchor is at `c`: the item is
/// stored, the anchor is made sure of, then the edges are written.
pub open spec fn create_item_spec(s: StoreView, c: Seq<u8>, i: ItemView) -> StoreView {
    link_item_spec(s.put(item_address(i)).put(c), c, item_address(i))
}

pub open spec fn link_opt_view(o: Option<Link>) -> Option<LinkView> {
    match o {
        Some(l) => Some(l@),
        None => None,
    }
}

pub open spec fn hash_opt_view(o: Option<EntryHash>) -> Option<Seq<u8>> {
    match o {
        Some(h) => Some(h@),
        None => None,
    }
}

pub open spec fn items_view(v: Seq<RssItem>) -> Seq<ItemView> {
    v.map_values(|i: RssItem| i@)
}

/// The head edge of the channel at `channel_hash`, if it has one.
pub fn get_rss_head_item_link(store: &Store, channel_hash: &EntryHash) -> (r: Option<Link>)
    requires
        store@.wf(),
    ensures
        link_opt_view(r) == first_head(store@, channel_hash@),
{
    let tag = rss_head_item_tag();
    let mut links = store.get_links(channel_hash, Some(tag.as_slice()));
    if links.len() > 0 {
        let ghost lv = links@.map_values(|l: Link| l@);
        assert(lv[0] == links@[0]@);
        Some(links.swap_remove(0))
    } else {
        None
    }
}

/// Every live head edge of the channel at `channel_hash`, oldest first.
pub fn get_rss_head_item_links(store: &Store, channel_hash: &EntryHash) -> (r: Vec<Link>)
    requires
        store@.wf(),
    ensures
        links_view(r@) == head_links(store@, channel_hash@),
{
    let tag = rss_head_item_tag();
    store.get_links(channel_hash, Some(tag.as_slice()))
}

/// Makes `item_hash` the head of the channel at `channel_hash`, given the head edges read
/// before, oldest first. The item is chained to the newest of them; the new head edge is
/// created before each of them is deleted, so a channel that had a head keeps one at every
/// step, and a doubled head left by an interrupted append is healed. Under concurrent appends
/// two callers may pass the same `observed` edges: the chain then forks and one of the two
/// items is left off it.
pub fn splice_item(
    store: &mut Store,
    channel_hash: &EntryHash,
    item_hash: &EntryHash,
    observed: Vec<Link>,
)
    requires
        old(store)@.wf(),
    ensures
        final(store)@ == splice_spec(old(store)@, channel_hash@, item_hash@, links_view(observed@)),
        final(store)@.wf(),
        final(store).history().len() == old(store).history().len() + splice_len(
            links_view(observed@),
        ),
        forall|j: int|
            0 <= j < old(store).history().len() ==> final(store).history()[j] == old(
                store,
            ).history()[j],
        forall|k: nat|
            1 <= k <= splice_len(links_view(observed@)) ==> final(store).history()[old(
                store,
            ).history().len() + k - 1] == #[trigger] splice_state(
                old(store)@,
                channel_hash@,
                item_hash@,
                links_view(observed@),
                k,
            ),
{
    let ghost s = store@;
    let ghost h0 = store.history().len();
    let ghost obs = links_view(observed@);
    let empty: Vec<u8> = Vec::new();
    let head = rss_head_item_tag();
    if observed.len() == 0 {
        store.create_link(channel_hash, item_hash, head.as_slice());
        return;
    }
    let newest = observed.len() - 1;
    assert(obs.last() == observed@[newest as int]@);
    store.create_link(item_hash, &observed[newest].target, empty.as_slice());
    store.create_link(channel_hash, item_hash, head.as_slice());
    assert(obs.take(0) =~= Seq::<LinkView>::empty());
    let mut i: usize = 0;
    while i < observed.len()
        invariant
            i <= observed@.len(),
            obs == links_view(observed@),
            obs.len() > 0,
            store@ == splice_state(s, channel_hash@, item_hash@, obs, (i + 2) as nat),
            store@.wf(),
            store.history().len() == h0 + i + 2,
            forall|j: int| 0 <= j < h0 ==> store.history()[j] == old(store).history()[j],
            forall|k: nat|
                1 <= k <= i + 2 ==> store.history()[h0 + k - 1] == #[trigger] splice_state(
                    s,
                    channel_hash@,
                    item_hash@,
                    obs,
                    k,
                ),
        decreases observed@.len() - i,
    {
        proof {
            assert(obs.take(i + 1).drop_last() =~= obs.take(i as int));
            assert(obs.take(i + 1).last() == observed@[i as int]@);
        }
        store.delete_link(observed[i].create_link_hash);
        i = i + 1;
    }
    assert(obs.take(obs.len() as int) =~= obs);
}

/// Links a stored item into its channel: the fan-out edge, then the head and chain edges.
/// Afterwards the item's head edge is the channel's only one, and a channel that had a head
/// had one in every state the store passed through.
pub fn update_rss_item_links(store: &mut Store, channel_hash: &EntryHash, item_hash: &EntryHash)
    requires
        old(store)@.wf(),
    ensures
        final(store)@ == link_item_spec(old(store)@, channel_hash@, item_hash@),
        final(store)@.wf(),
        head_links(final(store)@, channel_hash@) == seq![final(store)@.links.last()],
        final(store)@.links.last().target == item_hash@,
        final(store).history().len() > old(store).history().len(),
        forall|j: int|
            0 <= j < old(store).history().len() ==> final(store).history()[j] == old(
                store,
            ).history()[j],
        head_links(old(store)@, channel_hash@).len() > 0 ==> forall|j: int|
            old(store).history().len() <= j < final(store).history().len() ==> head_links(
                #[trigger] final(store).history()[j],
                channel_hash@,
            ).len() > 0,
{
    let ghost s = store@;
    let ghost h0 = store.history().len();
    let tag = rss_item_tag();
    store.create_link(channel_hash, item_hash, tag.as_slice());
    let ghost s1 = store@;
    let observed = get_rss_head_item_links(store, channel_hash);
    splice_item(store, channel_hash, item_hash, observed);
    proof {
        lemma_link_item_effects(s, channel_hash@, item_hash@);
        lemma_tags_differ();
        lemma_create_link_live(s, channel_hash@, item_hash@, item_tag(), channel_hash@, Some(head_tag()));
        let obs = head_links(s1, channel_hash@);
        if head_links(s, channel_hash@).len() > 0 {
            lemma_live_links_members(s1, channel_hash@, Some(head_tag()));
            assert forall|j: int|
                h0 <= j < store.history().len() implies head_links(
                #[trigger] store.history()[j],
                channel_hash@,
            ).len() > 0 by {
                if j > h0 {
                    let k = (j - h0) as nat;
                    assert(store.history()[h0 + 1 + k - 1] == splice_state(s1, channel_hash@, item_hash@, obs, k));
                    lemma_splice_keeps_a_head(s1, channel_hash@, item_hash@, obs, k);
                }
            }
        }
    }
}

/// Stores `item` and makes it the newest item of the channel at `channel_hash`; returns the
/// item's address.
pub fn append_item(store: &mut Store, channel_hash: &EntryHash, item: RssItem) -> (r: EntryHash)
    requires
        old(store)@.wf(),
    ensures
        r@ == item_address(item@),
        final(store)@ == append_spec(old(store)@, channel_hash@, item@),
        final(store)@.wf(),
{
    let item_hash = store.put(&Entry::Item(item));
    update_rss_item_links(store, channel_hash, &item_hash);
    item_hash
}

/// An item to publish, and the uuid of its channel.
#[derive(Debug, Clone, PartialEq, Eq)]
pub struct CreateRssItemRequest(pub RssItem, pub String);

/// The uuid of the channel whose items are asked for.
#[derive(Debug, Clone, PartialEq, Eq)]
pub struct FetchRssItemsRequest(pub String);

/// A channel's items, newest first.
#[derive(Debug, Clone, PartialEq, Eq)]
pub struct FetchRssItemsResponse(pub Vec<RssItem>);

/// Appends an item to the channel named by its uuid, whose anchor stands for the channel;
/// returns the item's address.
pub fn create_rss_item(store: &mut Store, request: CreateRssItemRequest) -> (r: EntryHash)
    requires
        old(store)@.wf(),
    ensures
        r@ == item_address(request.0@),
        final(store)@ == create_item_spec(
            old(store)@,
            anchor_of(channel_path(request.1@)),
            request.0@,
        ),
        final(store)@.wf(),
{
    let CreateRssItemRequest(item, channel_uuid) = request;
    let item_hash = store.put(&Entry::Item(item));
    let channel_path = get_channel_path(channel_uuid);
    let channel_hash = ensure_anchor(store, &channel_path);
    update_rss_item_links(store, &channel_hash, &item_hash);
    item_hash
}

/// The items of the channel at `channel_hash`, newest first: its head item, then each
/// predecessor along the chain. An address this store does not hold ends the walk early.
pub fn list_items(store: &Store, channel_hash: &EntryHash) -> (r: Vec<RssItem>)
    requires
        store@.wf(),
    ensures
        items_view(r@) == list_items_spec(store@, channel_hash@),
{
    let ghost s = store@;
    let ghost total = list_items_spec(s, channel_hash@);
    let chain = Vec::<u8>::new();
    let mut cur: Option<EntryHash> = match get_rss_head_item_link(store, channel_hash) {
        Some(l) => Some(l.target),
        None => None,
    };
    let mut fuel = store.link_count();
    let mut out: Vec<RssItem> = Vec::new();
    let mut done = false;
    assert(items_view(out@) =~= Seq::<ItemView>::empty());
    assert(Seq::<ItemView>::empty() + total =~= total);
    while !done
        invariant
            s == store@,
            store@.wf(),
            chain@ == chain_tag(),
            done ==> items_view(out@) == total,
            !done ==> items_view(out@) + match hash_opt_view(cur) {
                Some(h) => chain_from(s, h, fuel as nat),
                None => Seq::empty(),
            } == total,
        decreases fuel + if done {
            0int
        } else {
            1int
        },
    {
        let ghost prev = out@;
        match &cur {
            None => {
                assert(items_view(out@) =~= items_view(out@) + Seq::<ItemView>::empty());
                done = true;
            },
            Some(h) => {
                if fuel == 0 {
                    assert(items_view(out@) =~= items_view(out@) + Seq::<ItemView>::empty());
                    done = true;
                } else {
                    match store.get(h) {
                        Some(Entry::Item(item)) => {
                            let links = store.get_links(h, Some(chain.as_slice()));
                            let next = if links.len() > 0 {
                                let ghost lv = links@.map_values(|l: Link| l@);
                                assert(lv[0] == links@[0]@);
                                Some(links[0].target.copy())
                            } else {
                                None
                            };
                            assert(hash_opt_view(next) == next_of(s, h@));
                            let ghost rest = match hash_opt_view(next) {
                                Some(n) => chain_from(s, n, (fuel - 1) as nat),
                                None => Seq::<ItemView>::empty(),
                            };
                            assert(chain_from(s, h@, fuel as nat) == seq![item@] + rest);
                            out.push(item);
                            assert(items_view(out@) =~= items_view(prev).push(item@));
                            assert(items_view(prev) + (seq![item@] + rest) =~= items_view(out@)
                                + rest);
                            cur = next;
                            fuel = fuel - 1;
                        },
                        _ => {
                            assert(items_view(out@) =~= items_view(out@) + Seq::<ItemView>::empty());
                            done = true;
                        },
                    }
                }
            },
        }
    }
    out
}

/// The items of the channel named by `uuid`, newest first.
pub fn fetch_rss_items(store: &Store, request: FetchRssItemsRequest) -> (r: FetchRssItemsResponse)
    requires
        store@.wf(),
    ensures
        items_view(r.0@) == list_items_spec(store@, anchor_of(channel_path(request.0@))),
{
    let FetchRssItemsRequest(channel_uuid) = request;
    let channel_hash = anchor_hash(&get_channel_path(channel_uuid));
    FetchRssItemsResponse(list_items(store, &channel_hash))
}


proof fn lemma_tags_differ()
    ensures
        item_tag() != head_tag(),
        chain_tag() != head_tag(),
        chain_tag() != item_tag(),
{
    assert(item_tag()[0] != head_tag()[0]);
    assert(chain_tag().len() != head_tag().len());
    assert(chain_tag().len() != item_tag().len());
}

/// While a splice runs on a channel that had a head, with head edges read from this store,
/// the channel has a live head edge after every write.
pub proof fn lemma_splice_keeps_a_head(
    s: StoreView,
    c: Seq<u8>,
    item: Seq<u8>,
    observed: Seq<LinkView>,
    k: nat,
)
    requires
        s.wf(),
        head_links(s, c).len() > 0,
        forall|i: int| 0 <= i < observed.len() ==> (#[trigger] observed[i]).id < s.links.len(),
        1 <= k <= splice_len(observed),
    ensures
        head_links(splice_state(s, c, item, observed, k), c).len() > 0,
{
    lemma_tags_differ();
    if observed.len() == 0 {
        lemma_create_link_live(s, c, item, head_tag(), c, Some(head_tag()));
    } else {
        let chained = s.create_link(item, observed.last().target, chain_tag());
        lemma_create_link_live(s, item, observed.last().target, chain_tag(), c, Some(head_tag()));
        if k > 1 {
            let s3 = chained.create_link(c, item, head_tag());
            lemma_create_link_live(chained, c, item, head_tag(), c, Some(head_tag()));
            let gone = observed.take(k - 2);
            lemma_delete_links_frame(s3, gone);
            let n = s.links.len() as int + 1;
            assert forall|i: int| 0 <= i < gone.len() implies gone[i].id != n by {
                assert(gone[i] == observed[i]);
            }
            assert(s3.delete_links(gone).live[n] == s3.live[n]);
            lemma_live_links_nonempty(s3.delete_links(gone), n, c, Some(head_tag()));
        }
    }
}

proof fn lemma_delete_heads(s3: StoreView, c: Seq<u8>, heads: Seq<LinkView>, m: int)
    requires
        s3.wf(),
        head_links(s3, c).len() == heads.len() + 1,
        forall|i: int| 0 <= i < heads.len() ==> head_links(s3, c)[i] == heads[i],
        0 <= m <= heads.len(),
    ensures
        s3.delete_links(heads.take(m)).wf(),
        s3.delete_links(heads.take(m)).links == s3.links,
        s3.delete_links(heads.take(m)).entries == s3.entries,
        head_links(s3.delete_links(heads.take(m)), c) == head_links(s3, c).skip(m),
        forall|b: Seq<u8>|
            #[trigger] s3.delete_links(heads.take(m)).live_links(b, Some(chain_tag()))
                == s3.live_links(b, Some(chain_tag())),
    decreases m,
{
    lemma_tags_differ();
    lemma_delete_links_frame(s3, heads.take(m));
    if m == 0 {
        assert(heads.take(0) =~= Seq::<LinkView>::empty());
        assert(head_links(s3, c).skip(0) =~= head_links(s3, c));
    } else {
        lemma_delete_heads(s3, c, heads, m - 1);
        let u = s3.delete_links(heads.take(m - 1));
        assert(heads.take(m).drop_last() =~= heads.take(m - 1));
        assert(heads.take(m).last() == heads[m - 1]);
        assert(head_links(u, c)[0] == heads[m - 1]);
        lemma_delete_link_first(u, c, Some(head_tag()));
        assert(head_links(s3, c).skip(m - 1).drop_first() =~= head_links(s3, c).skip(m));
        lemma_live_links_members(s3, c, Some(head_tag()));
        assert(s3.links[heads[m - 1].id as int] == heads[m - 1]);
        assert forall|b: Seq<u8>|
            #[trigger] s3.delete_links(heads.take(m)).live_links(b, Some(chain_tag()))
                == s3.live_links(b, Some(chain_tag())) by {
            lemma_delete_link_other(u, heads[m - 1].id, b, Some(chain_tag()));
        }
    }
}

/// What writing the edges of a new item does: the item's head edge becomes the channel's only
/// one, the item is chained to the newest head there was, and no other address gains or loses
/// a chain edge.
proof fn lemma_link_item_effects(p: StoreView, c: Seq<u8>, h: Seq<u8>)
    requires
        p.wf(),
    ensures
        ({
            let t = link_item_spec(p, c, h);
            &&& t.wf()
            &&& t.entries == p.entries
            &&& t.link_count() >= p.link_count() + 2
            &&& head_links(t, c) == seq![t.links.last()]
            &&& t.links.last().target == h
            &&& forall|b: Seq<u8>| b != h ==> #[trigger] t.live_links(b, Some(chain_tag())) == p.live_links(b, Some(chain_tag()))
            &&& p.live_links(h, Some(chain_tag())).len() == 0 && head_links(p, c).len() == 0
                ==> t.live_links(h, Some(chain_tag())).len() == 0
            &&& p.live_links(h, Some(chain_tag())).len() == 0 && head_links(p, c).len() > 0
                ==> t.live_links(h, Some(chain_tag())).len() == 1 && t.live_links(h, Some(chain_tag()))[0].target == head_links(p, c).last().target
        }),
{
    lemma_tags_differ();
    let s1 = p.create_link(c, h, item_tag());
    let t = link_item_spec(p, c, h);
    lemma_create_link_live(p, c, h, item_tag(), c, Some(head_tag()));
    assert forall|b: Seq<u8>| #[trigger] s1.live_links(b, Some(chain_tag())) == p.live_links(b, Some(chain_tag())) by {
        lemma_create_link_live(p, c, h, item_tag(), b, Some(chain_tag()));
    }
    let heads = head_links(s1, c);
    if heads.len() == 0 {
        lemma_create_link_live(s1, c, h, head_tag(), c, Some(head_tag()));
        assert(head_links(t, c) =~= seq![t.links.last()]);
        assert forall|b: Seq<u8>| #[trigger] t.live_links(b, Some(chain_tag())) == s1.live_links(b, Some(chain_tag())) by {
            lemma_create_link_live(s1, c, h, head_tag(), b, Some(chain_tag()));
        }
    } else {
        let prev = heads.last();
        let s2 = s1.create_link(h, prev.target, chain_tag());
        let s3 = s2.create_link(c, h, head_tag());
        lemma_create_link_live(s1, h, prev.target, chain_tag(), c, Some(head_tag()));
        lemma_create_link_live(s2, c, h, head_tag(), c, Some(head_tag()));
        assert forall|b: Seq<u8>| #[trigger] s3.live_links(b, Some(chain_tag())) == if b == h {
            s1.live_links(b, Some(chain_tag())).push(LinkView { base: h, target: prev.target, tag: chain_tag(), id: s1.links.len() })
        } else {
            s1.live_links(b, Some(chain_tag()))
        } by {
            lemma_create_link_live(s1, h, prev.target, chain_tag(), b, Some(chain_tag()));
            lemma_create_link_live(s2, c, h, head_tag(), b, Some(chain_tag()));
        }
        lemma_delete_heads(s3, c, heads, heads.len() as int);
        assert(heads.take(heads.len() as int) =~= heads);
        assert(t == s3.delete_links(heads));
        assert(head_links(s3, c).skip(heads.len() as int) =~= seq![s3.links.last()]);
    }
}

/// After an append, whatever heads the channel had, it has exactly one, and it leads to the
/// appended item.
pub proof fn lemma_append_leaves_single_head(s: StoreView, c: Seq<u8>, x: ItemView)
    requires
        s.wf(),
    ensures
        append_spec(s, c, x).wf(),
        head_links(append_spec(s, c, x), c).len() == 1,
        head_links(append_spec(s, c, x), c)[0].target == item_address(x),
{
    lemma_put(s, item_address(x));
    lemma_link_item_effects(s.put(item_address(x)), c, item_address(x));
}

/// The store after each of `items` is appended in turn, oldest first, to channel `c`.
pub open spec fn append_all(s: StoreView, c: Seq<u8>, items: Seq<ItemView>) -> StoreView
    decreases items.len(),
{
    if items.len() == 0 {
        s
    } else {
        append_spec(append_all(s, c, items.drop_last()), c, items.last())
    }
}

/// The store after each of `items` is appended in turn, oldest first, to the channel whose
/// anchor is at `c`.
pub open spec fn create_all(s: StoreView, c: Seq<u8>, items: Seq<ItemView>) -> StoreView
    decreases items.len(),
{
    if items.len() == 0 {
        s
    } else {
        create_item_spec(create_all(s, c, items.drop_last()), c, items.last())
    }
}

/// The shape that sequential appends give a channel: one head at the newest item, and each
/// item's chain edge at the one appended before it; `done` is oldest first.
pub open spec fn chain_ok(t: StoreView, c: Seq<u8>, done: Seq<ItemView>) -> bool {
    &&& t.wf()
    &&& t.link_count() >= done.len()
    &&& done.len() == 0 ==> head_links(t, c).len() == 0
    &&& done.len() > 0 ==> head_links(t, c).len() == 1 && head_links(t, c)[0].target
        == item_address(done.last())
    &&& forall|k: int| 0 <= k < done.len() ==> t.entries.contains(#[trigger] item_address(done[k]))
    &&& forall|k: int|
        0 < k < done.len() ==> next_of(t, #[trigger] item_address(done[k])) == Some(
            item_address(done[k - 1]),
        )
    &&& done.len() > 0 ==> next_of(t, item_address(done[0])) is None
}

proof fn lemma_item_address_injective(a: ItemView, b: ItemView)
    requires
        entry_fits(EntryView::Item(a)),
        entry_fits(EntryView::Item(b)),
        item_address(a) == item_address(b),
    ensures
        a == b,
{
    lemma_decode_encode(EntryView::Item(a));
    lemma_decode_encode(EntryView::Item(b));
}

proof fn lemma_chain_ok_step(
    prev: StoreView,
    p: StoreView,
    c: Seq<u8>,
    init: Seq<ItemView>,
    x: ItemView,
)
    requires
        chain_ok(prev, c, init),
        p.wf(),
        p.links == prev.links,
        p.live == prev.live,
        forall|e: Seq<u8>| prev.entries.contains(e) ==> p.entries.contains(e),
        p.entries.contains(item_address(x)),
        prev.live_links(item_address(x), Some(chain_tag())).len() == 0,
        forall|k: int| 0 <= k < init.len() ==> item_address(x) != #[trigger] item_address(init[k]),
    ensures
        chain_ok(link_item_spec(p, c, item_address(x)), c, init.push(x)),
        forall|b: Seq<u8>|
            b != item_address(x) ==> #[trigger] link_item_spec(p, c, item_address(x)).live_links(
                b,
                Some(chain_tag()),
            ) == prev.live_links(b, Some(chain_tag())),
{
    let items = init.push(x);
    let n = items.len() as int;
    let t = link_item_spec(p, c, item_address(x));
    assert(p.live_links(item_address(x), Some(chain_tag())) == prev.live_links(item_address(x), Some(chain_tag())));
    assert(head_links(p, c) == head_links(prev, c));
    assert forall|b: Seq<u8>| #[trigger] p.live_links(b, Some(chain_tag())) == prev.live_links(b, Some(chain_tag())) by {}
    lemma_link_item_effects(p, c, item_address(x));
    assert forall|k: int| 0 <= k < n implies t.entries.contains(#[trigger] item_address(items[k])) by {
        if k < n - 1 {
            assert(items[k] == init[k]);
            assert(prev.entries.contains(item_address(init[k])));
        }
    }
    assert forall|k: int| 0 < k < n implies next_of(t, #[trigger] item_address(items[k])) == Some(
        item_address(items[k - 1]),
    ) by {
        if k < n - 1 {
            assert(items[k] == init[k]);
            assert(items[k - 1] == init[k - 1]);
            assert(next_of(prev, item_address(init[k])) == Some(item_address(init[k - 1])));
            assert(t.live_links(item_address(init[k]), Some(chain_tag())) == prev.live_links(
                item_address(init[k]),
                Some(chain_tag()),
            ));
        } else {
            assert(items[k - 1] == init.last());
            assert(head_links(p, c).last() == head_links(p, c)[0]);
        }
    }
    if n > 1 {
        assert(items[0] == init[0]);
        assert(next_of(prev, item_address(init[0])) is None);
        assert(t.live_links(item_address(init[0]), Some(chain_tag())) == prev.live_links(
            item_address(init[0]),
            Some(chain_tag()),
        ));
    }
}

proof fn lemma_append_all_chain(s: StoreView, c: Seq<u8>, items: Seq<ItemView>)
    requires
        s.wf(),
        head_links(s, c).len() == 0,
        forall|i: int| 0 <= i < items.len() ==> entry_fits(EntryView::Item(#[trigger] items[i])),
        forall|i: int, j: int| 0 <= i < j < items.len() ==> items[i] != items[j],
        forall|i: int|
            0 <= i < items.len() ==> s.live_links(#[trigger] item_address(items[i]), Some(chain_tag())).len() == 0,
    ensures
        chain_ok(append_all(s, c, items), c, items),
        forall|b: Seq<u8>|
            (forall|k: int| 0 <= k < items.len() ==> b != #[trigger] item_address(items[k]))
                ==> #[trigger] append_all(s, c, items).live_links(b, Some(chain_tag())) == s.live_links(
                b,
                Some(chain_tag()),
            ),
    decreases items.len(),
{
    if items.len() == 0 {
        assert(chain_ok(s, c, items));
    } else {
        let init = items.drop_last();
        let x = items.last();
        let h = item_address(x);
        let n = items.len() as int;
        let prev = append_all(s, c, init);
        assert forall|i: int| 0 <= i < init.len() implies entry_fits(EntryView::Item(#[trigger] init[i])) by {
            assert(init[i] == items[i]);
        }
        assert forall|i: int| 0 <= i < init.len() implies s.live_links(#[trigger] item_address(init[i]), Some(chain_tag())).len() == 0 by {
            assert(init[i] == items[i]);
        }
        lemma_append_all_chain(s, c, init);
        assert forall|k: int| 0 <= k < init.len() implies h != #[trigger] item_address(init[k]) by {
            assert(init[k] == items[k]);
            assert(entry_fits(EntryView::Item(items[n - 1])));
            if h == item_address(init[k]) {
                lemma_item_address_injective(x, items[k]);
            }
        }
        assert(prev.live_links(h, Some(chain_tag())) == s.live_links(h, Some(chain_tag())));
        assert(s.live_links(item_address(items[n - 1]), Some(chain_tag())).len() == 0);
        lemma_put(prev, h);
        lemma_chain_ok_step(prev, prev.put(h), c, init, x);
        assert(init.push(x) =~= items);
        assert forall|b: Seq<u8>|
            (forall|k: int| 0 <= k < items.len() ==> b != #[trigger] item_address(items[k]))
            implies #[trigger] append_all(s, c, items).live_links(b, Some(chain_tag())) == s.live_links(b, Some(chain_tag())) by {
            assert(b != item_address(items[n - 1]));
            assert forall|k: int| 0 <= k < init.len() implies b != #[trigger] item_address(init[k]) by {
                assert(init[k] == items[k]);
                assert(b != item_address(items[k]));
            }
        }
    }
}

proof fn lemma_create_all_chain(s: StoreView, c: Seq<u8>, items: Seq<ItemView>)
    requires
        s.wf(),
        head_links(s, c).len() == 0,
        forall|i: int| 0 <= i < items.len() ==> entry_fits(EntryView::Item(#[trigger] items[i])),
        forall|i: int, j: int| 0 <= i < j < items.len() ==> items[i] != items[j],
        forall|i: int|
            0 <= i < items.len() ==> s.live_links(#[trigger] item_address(items[i]), Some(chain_tag())).len() == 0,
    ensures
        chain_ok(create_all(s, c, items), c, items),
        forall|b: Seq<u8>|
            (forall|k: int| 0 <= k < items.len() ==> b != #[trigger] item_address(items[k]))
                ==> #[trigger] create_all(s, c, items).live_links(b, Some(chain_tag())) == s.live_links(
                b,
                Some(chain_tag()),
            ),
    decreases items.len(),
{
    if items.len() == 0 {
        assert(chain_ok(s, c, items));
    } else {
        let init = items.drop_last();
        let x = items.last();
        let h = item_address(x);
        let n = items.len() as int;
        let prev = create_all(s, c, init);
        assert forall|i: int| 0 <= i < init.len() implies entry_fits(EntryView::Item(#[trigger] init[i])) by {
            assert(init[i] == items[i]);
        }
        assert forall|i: int| 0 <= i < init.len() implies s.live_links(#[trigger] item_address(init[i]), Some(chain_tag())).len() == 0 by {
            assert(init[i] == items[i]);
        }
        lemma_create_all_chain(s, c, init);
        assert forall|k: int| 0 <= k < init.len() implies h != #[trigger] item_address(init[k]) by {
            assert(init[k] == items[k]);
            assert(entry_fits(EntryView::Item(items[n - 1])));
            if h == item_address(init[k]) {
                lemma_item_address_injective(x, items[k]);
            }
        }
        assert(prev.live_links(h, Some(chain_tag())) == s.live_links(h, Some(chain_tag())));
        assert(s.live_links(item_address(items[n - 1]), Some(chain_tag())).len() == 0);
        lemma_put(prev, h);
        lemma_put(prev.put(h), c);
        lemma_chain_ok_step(prev, prev.put(h).put(c), c, init, x);
        assert(init.push(x) =~= items);
        assert forall|b: Seq<u8>|
            (forall|k: int| 0 <= k < items.len() ==> b != #[trigger] item_address(items[k]))
            implies #[trigger] create_all(s, c, items).live_links(b, Some(chain_tag())) == s.live_links(b, Some(chain_tag())) by {
            assert(b != item_address(items[n - 1]));
            assert forall|k: int| 0 <= k < init.len() implies b != #[trigger] item_address(init[k]) by {
                assert(init[k] == items[k]);
                assert(b != item_address(items[k]));
            }
        }
    }
}

proof fn lemma_chain_walk(t: StoreView, done: Seq<ItemView>, n: int, fuel: nat)
    requires
        forall|k: int| 0 <= k < done.len() ==> t.entries.contains(#[trigger] item_address(done[k])),
        forall|k: int|
            0 < k < done.len() ==> next_of(t, #[trigger] item_address(done[k])) == Some(
                item_address(done[k - 1]),
            ),
        next_of(t, item_address(done[0])) is None,
        forall|i: int| 0 <= i < done.len() ==> entry_fits(EntryView::Item(#[trigger] done[i])),
        1 <= n <= done.len(),
        fuel >= n,
    ensures
        chain_from(t, item_address(done[n - 1]), fuel) == done.take(n).reverse(),
    decreases n,
{
    let h = item_address(done[n - 1]);
    assert(t.entries.contains(h));
    assert(entry_fits(EntryView::Item(done[n - 1])));
    lemma_decode_encode(EntryView::Item(done[n - 1]));
    assert(t.get(h) == Some(EntryView::Item(done[n - 1])));
    if n == 1 {
        assert(chain_from(t, h, fuel) == seq![done[0]] + Seq::<ItemView>::empty());
        assert(done.take(1).reverse() =~= seq![done[0]]);
        assert(seq![done[0]] + Seq::<ItemView>::empty() =~= seq![done[0]]);
    } else {
        lemma_chain_walk(t, done, n - 1, (fuel - 1) as nat);
        assert(next_of(t, h) == Some(item_address(done[n - 2])));
        assert(chain_from(t, h, fuel) == seq![done[n - 1]] + chain_from(
            t,
            item_address(done[n - 2]),
            (fuel - 1) as nat,
        ));
        assert(seq![done[n - 1]] + done.take(n - 1).reverse() =~= done.take(n).reverse());
    }
}

/// Appending distinct items one after another to a channel that has no items yet, each new
/// to the store's chain edges, makes the channel list exactly those items, newest first.
pub proof fn lemma_sequential_appends_listed_newest_first(
    s: StoreView,
    c: Seq<u8>,
    items: Seq<ItemView>,
)
    requires
        s.wf(),
        head_links(s, c).len() == 0,
        forall|i: int| 0 <= i < items.len() ==> entry_fits(EntryView::Item(#[trigger] items[i])),
        forall|i: int, j: int| 0 <= i < j < items.len() ==> items[i] != items[j],
        forall|i: int|
            0 <= i < items.len() ==> s.live_links(#[trigger] item_address(items[i]), Some(chain_tag())).len() == 0,
    ensures
        list_items_spec(append_all(s, c, items), c) == items.reverse(),
{
    lemma_append_all_chain(s, c, items);
    let t = append_all(s, c, items);
    if items.len() == 0 {
        assert(items.reverse() =~= Seq::<ItemView>::empty());
    } else {
        lemma_chain_walk(t, items, items.len() as int, t.link_count());
        assert(items.take(items.len() as int) =~= items);
    }
}

/// Appending distinct items one after another by channel uuid, to a channel that has no items
/// yet, each new to the store's chain edges, makes the channel's listing by uuid exactly those
/// items, newest first.
pub proof fn lemma_created_items_listed_newest_first(
    s: StoreView,
    uuid: Seq<char>,
    items: Seq<ItemView>,
)
    requires
        s.wf(),
        head_links(s, anchor_of(channel_path(uuid))).len() == 0,
        forall|i: int| 0 <= i < items.len() ==> entry_fits(EntryView::Item(#[trigger] items[i])),
        forall|i: int, j: int| 0 <= i < j < items.len() ==> items[i] != items[j],
        forall|i: int|
            0 <= i < items.len() ==> s.live_links(#[trigger] item_address(items[i]), Some(chain_tag())).len() == 0,
    ensures
        list_items_spec(create_all(s, anchor_of(channel_path(uuid)), items), anchor_of(channel_path(uuid)))
            == items.reverse(),
{
    let c = anchor_of(channel_path(uuid));
    lemma_create_all_chain(s, c, items);
    let t = create_all(s, c, items);
    if items.len() == 0 {
        assert(items.reverse() =~= Seq::<ItemView>::empty());
    } else {
        lemma_chain_walk(t, items, items.len() as int, t.link_count());
        assert(items.take(items.len() as int) =~= items);
    }
}

} // verus!
