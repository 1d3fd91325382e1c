use vstd::prelude::*;

use crate::codec::{decode_entry, encode_entry, push_slice};
use crate::entry::{Entry, EntryView};

verus! {

/// The address of a record: its canonical encoding, so equal records share one address
/// and the address can be computed without asking the store.
#[derive(Debug, Clone, PartialEq, Eq, Hash)]
pub struct EntryHash(pub Vec<u8>);

impl View for EntryHash {
    type V = Seq<u8>;

    open spec fn view(&self) -> Seq<u8> {
        self.0@
    }
}

/// A directed, tagged edge between two addresses, with the id the store gave it.
#[derive(Debug, Clone, PartialEq, Eq)]
pub struct Link {
    pub base: EntryHash,
    pub target: EntryHash,
    pub tag: Vec<u8>,
    pub create_link_hash: usize,
}

pub struct LinkView {
    pub base: Seq<u8>,
    pub target: Seq<u8>,
    pub tag: Seq<u8>,
    pub id: nat,
}

impl View for Link {
    type V = LinkView;

    open spec fn view(&self) -> LinkView {
        LinkView {
            base: self.base@,
            target: self.target@,
            tag: self.tag@,
            id: self.create_link_hash as nat,
        }
    }
}

pub fn copy_bytes(b: &[u8]) -> (r: Vec<u8>)
    ensures
        r@ == b@,
{
    let mut r: Vec<u8> = Vec::new();
    push_slice(&mut r, b);
    assert(r@ =~= b@);
    r
}

impl EntryHash {
    pub fn copy(&self) -> (r: EntryHash)
        ensures
            r@ == self@,
    {
        EntryHash(copy_bytes(self.0.as_slice()))
    }
}

impl Link {
    pub fn copy(&self) -> (r: Link)
        ensures
            r@ == self@,
    {
        Link {
            base: self.base.copy(),
            target: self.target.copy(),
            tag: copy_bytes(self.tag.as_slice()),
            create_link_hash: self.create_link_hash,
        }
    }
}

pub fn bytes_eq(a: &[u8], b: &[u8]) -> (r: bool)
    ensures
        r == (a@ == b@),
{
    if a.len() != b.len() {
        return false;
    }
    let mut i: usize = 0;
    while i < a.len()
        invariant
            a@.len() == b@.len(),
            i <= a@.len(),
            a@.subrange(0, i as int) == b@.subrange(0, i as int),
        decreases a@.len() - i,
    {
        if a[i] != b[i] {
            assert(a@[i as int] != b@[i as int]);
            return false;
        }
        assert(a@.subrange(0, i + 1) =~= a@.subrange(0, i as int).push(a@[i as int]));
        assert(b@.subrange(0, i + 1) =~= b@.subrange(0, i as int).push(b@[i as int]));
        i = i + 1;
    }
    assert(a@ =~= a@.subrange(0, i as int));
    assert(b@ =~= b@.subrange(0, i as int));
    true
}

/// Whether an edge leaves `base` and carries `tag`; no tag asked for admits every tag.
pub open spec fn link_matches(l: LinkView, base: Seq<u8>, tag: Option<Seq<u8>>) -> bool {
    l.base == base && match tag {
        Some(t) => l.tag == t,
        None => true,
    }
}

/// The live edges among the first `n` of the log that leave `base` with `tag`, in log order.
pub open spec fn live_upto(
    links: Seq<LinkView>,
    live: Seq<bool>,
    n: nat,
    base: Seq<u8>,
    tag: Option<Seq<u8>>,
) -> Seq<LinkView>
    decreases n,
{
    if n == 0 {
        Seq::empty()
    } else {
        let prev = live_upto(links, live, (n - 1) as nat, base, tag);
        let l = links[n - 1];
        if live[n - 1] && link_matches(l, base, tag) {
            prev.push(l)
        } else {
            prev
        }
    }
}

/// What the store holds: the records put so far, and the log of every edge created,
/// each marked live until it is deleted.
pub struct StoreView {
    pub entries: Seq<Seq<u8>>,
    pub links: Seq<LinkView>,
    pub live: Seq<bool>,
}

impl StoreView {
    pub open spec fn wf(self) -> bool {
        &&& log_wf(self.links, self.live)
        &&& self.entries.no_duplicates()
    }

    /// The live edges that leave `base` with `tag`, in the order they were created.
    pub open spec fn live_links(self, base: Seq<u8>, tag: Option<Seq<u8>>) -> Seq<LinkView> {
        live_upto(self.links, self.live, self.links.len(), base, tag)
    }

    /// The record at `h`, where this store holds one.
    pub open spec fn get(self, h: Seq<u8>) -> Option<EntryView> {
        if self.entries.contains(h) {
            decode_entry(h)
        } else {
            None
        }
    }

    /// The store after a record with address `h` is put: unchanged where it was there already.
    pub open spec fn put(self, h: Seq<u8>) -> StoreView {
        if self.entries.contains(h) {
            self
        } else {
            StoreView { entries: self.entries.push(h), ..self }
        }
    }

    /// How many edges the log holds, deleted ones included.
    pub open spec fn link_count(self) -> nat {
        self.links.len()
    }

    /// The store after an edge is appended to the log, live.
    pub open spec fn create_link(self, base: Seq<u8>, target: Seq<u8>, tag: Seq<u8>) -> StoreView {
        StoreView {
            links: self.links.push(LinkView { base, target, tag, id: self.links.len() }),
            live: self.live.push(true),
            ..self
        }
    }

    /// The store after each edge of `gone` is deleted in turn.
    pub open spec fn delete_links(self, gone: Seq<LinkView>) -> StoreView
        decreases gone.len(),
    {
        if gone.len() == 0 {
            self
        } else {
            self.delete_links(gone.drop_last()).delete_link(gone.last().id)
        }
    }

    /// The store after the edge with `id` is marked deleted; unknown ids change nothing.
    pub open spec fn delete_link(self, id: nat) -> StoreView {
        if id < self.live.len() {
            StoreView { live: self.live.update(id as int, false), ..self }
        } else {
            self
        }
    }
}

pub open spec fn log_wf(links: Seq<LinkView>, live: Seq<bool>) -> bool {
    &&& links.len() == live.len()
    &&& forall|i: int| 0 <= i < links.len() ==> (#[trigger] links[i]).id == i
}

proof fn lemma_live_upto_members(
    links: Seq<LinkView>,
    live: Seq<bool>,
    n: nat,
    base: Seq<u8>,
    tag: Option<Seq<u8>>,
)
    requires
        log_wf(links, live),
        n <= links.len(),
    ensures
        forall|i: int|
            0 <= i < live_upto(links, live, n, base, tag).len() ==> {
                let l = #[trigger] live_upto(links, live, n, base, tag)[i];
                &&& l.id < n
                &&& links[l.id as int] == l
                &&& live[l.id as int]
                &&& link_matches(l, base, tag)
            },
    decreases n,
{
    if n > 0 {
        lemma_live_upto_members(links, live, (n - 1) as nat, base, tag);
        let prev = live_upto(links, live, (n - 1) as nat, base, tag);
        let res = live_upto(links, live, n, base, tag);
        assert(links[n - 1].id == n - 1);
        assert forall|i: int| 0 <= i < res.len() implies {
            let l = #[trigger] res[i];
            &&& l.id < n
            &&& links[l.id as int] == l
            &&& live[l.id as int]
            &&& link_matches(l, base, tag)
        } by {
            if i < prev.len() {
                assert(res[i] == prev[i]);
            }
        }
    }
}

proof fn lemma_live_upto_prefix(
    links: Seq<LinkView>,
    live: Seq<bool>,
    n: nat,
    m: nat,
    base: Seq<u8>,
    tag: Option<Seq<u8>>,
)
    requires
        n <= m,
    ensures
        live_upto(links, live, n, base, tag).len() <= live_upto(links, live, m, base, tag).len(),
        forall|i: int|
            0 <= i < live_upto(links, live, n, base, tag).len() ==> live_upto(
                links,
                live,
                m,
                base,
                tag,
            )[i] == #[trigger] live_upto(links, live, n, base, tag)[i],
    decreases m,
{
    if n < m {
        lemma_live_upto_prefix(links, live, n, (m - 1) as nat, base, tag);
    }
}

proof fn lemma_live_upto_ext(
    l1: Seq<LinkView>,
    v1: Seq<bool>,
    l2: Seq<LinkView>,
    v2: Seq<bool>,
    n: nat,
    base: Seq<u8>,
    tag: Option<Seq<u8>>,
)
    requires
        n <= l1.len() && n <= v1.len() && n <= l2.len() && n <= v2.len(),
        forall|i: int| 0 <= i < n ==> l1[i] == l2[i] && v1[i] == v2[i],
    ensures
        live_upto(l1, v1, n, base, tag) == live_upto(l2, v2, n, base, tag),
    decreases n,
{
    if n > 0 {
        lemma_live_upto_ext(l1, v1, l2, v2, (n - 1) as nat, base, tag);
    }
}

/// Each live edge that leaves `base` with `tag` is the log's entry at its id, and is live.
pub proof fn lemma_live_links_members(s: StoreView, base: Seq<u8>, tag: Option<Seq<u8>>)
    requires
        s.wf(),
    ensures
        forall|i: int|
            0 <= i < s.live_links(base, tag).len() ==> {
                let l = #[trigger] s.live_links(base, tag)[i];
                &&& l.id < s.links.len()
                &&& s.links[l.id as int] == l
                &&& s.live[l.id as int]
                &&& link_matches(l, base, tag)
            },
{
    lemma_live_upto_members(s.links, s.live, s.links.len(), base, tag);
}

/// A new edge joins the end of the live edges it matches, and no others.
pub proof fn lemma_create_link_live(
    s: StoreView,
    base: Seq<u8>,
    target: Seq<u8>,
    tag: Seq<u8>,
    qbase: Seq<u8>,
    qtag: Option<Seq<u8>>,
)
    requires
        s.wf(),
    ensures
        s.create_link(base, target, tag).wf(),
        s.create_link(base, target, tag).live_links(qbase, qtag) == if link_matches(
            LinkView { base, target, tag, id: s.links.len() },
            qbase,
            qtag,
        ) {
            s.live_links(qbase, qtag).push(LinkView { base, target, tag, id: s.links.len() })
        } else {
            s.live_links(qbase, qtag)
        },
{
    let t = s.create_link(base, target, tag);
    lemma_live_upto_ext(s.links, s.live, t.links, t.live, s.links.len(), qbase, qtag);
}

proof fn lemma_delete_other_upto(
    links: Seq<LinkView>,
    live: Seq<bool>,
    k: int,
    n: nat,
    base: Seq<u8>,
    tag: Option<Seq<u8>>,
)
    requires
        0 <= k < live.len(),
        n <= links.len() == live.len(),
        !link_matches(links[k], base, tag),
    ensures
        live_upto(links, live.update(k, false), n, base, tag) == live_upto(links, live, n, base, tag),
    decreases n,
{
    if n > 0 {
        lemma_delete_other_upto(links, live, k, (n - 1) as nat, base, tag);
    }
}

/// Deleting an edge leaves the live edges that it does not match as they were.
pub proof fn lemma_delete_link_other(s: StoreView, id: nat, base: Seq<u8>, tag: Option<Seq<u8>>)
    requires
        s.wf(),
        id < s.links.len() ==> !link_matches(s.links[id as int], base, tag),
    ensures
        s.delete_link(id).wf(),
        s.delete_link(id).live_links(base, tag) == s.live_links(base, tag),
{
    if id < s.links.len() {
        lemma_delete_other_upto(s.links, s.live, id as int, s.links.len(), base, tag);
    }
}

proof fn lemma_delete_first_upto(
    links: Seq<LinkView>,
    live: Seq<bool>,
    k: int,
    n: nat,
    base: Seq<u8>,
    tag: Option<Seq<u8>>,
)
    requires
        0 <= k < live.len(),
        n <= links.len() == live.len(),
        live[k],
        link_matches(links[k], base, tag),
        live_upto(links, live, k as nat, base, tag).len() == 0,
    ensures
        n <= k ==> live_upto(links, live.update(k, false), n, base, tag) == live_upto(
            links,
            live,
            n,
            base,
            tag,
        ),
        n > k ==> live_upto(links, live, n, base, tag).len() >= 1 && live_upto(
            links,
            live.update(k, false),
            n,
            base,
            tag,
        ) == live_upto(links, live, n, base, tag).drop_first(),
    decreases n,
{
    if n > 0 {
        lemma_delete_first_upto(links, live, k, (n - 1) as nat, base, tag);
        let prev = live_upto(links, live, (n - 1) as nat, base, tag);
        if n - 1 == k {
            assert(prev.push(links[k]).drop_first() =~= Seq::<LinkView>::empty());
        } else if n - 1 > k {
            assert(prev.push(links[n - 1]).drop_first() =~= prev.drop_first().push(links[n - 1]));
        }
    }
}

/// Deleting the first live edge that leaves `base` with `tag` takes it off the front of them.
pub proof fn lemma_delete_link_first(s: StoreView, base: Seq<u8>, tag: Option<Seq<u8>>)
    requires
        s.wf(),
        s.live_links(base, tag).len() > 0,
    ensures
        s.delete_link(s.live_links(base, tag)[0].id).wf(),
        s.delete_link(s.live_links(base, tag)[0].id).live_links(base, tag) == s.live_links(
            base,
            tag,
        ).drop_first(),
{
    let all = s.live_links(base, tag);
    let k = all[0].id as int;
    lemma_live_upto_members(s.links, s.live, s.links.len(), base, tag);
    lemma_live_upto_members(s.links, s.live, k as nat, base, tag);
    lemma_live_upto_prefix(s.links, s.live, k as nat, s.links.len(), base, tag);
    let before = live_upto(s.links, s.live, k as nat, base, tag);
    if before.len() > 0 {
        assert(before[0] == all[0]);
        assert(before[0].id < k);
    }
    lemma_delete_first_upto(s.links, s.live, k, s.links.len(), base, tag);
}

/// Putting a record keeps the store well formed, holds the record, and keeps all others.
pub proof fn lemma_put(s: StoreView, h: Seq<u8>)
    requires
        s.wf(),
    ensures
        s.put(h).wf(),
        s.put(h).entries.contains(h),
        s.put(h).links == s.links,
        s.put(h).live == s.live,
        forall|e: Seq<u8>| s.entries.contains(e) ==> s.put(h).entries.contains(e),
{
    let t = s.put(h);
    if !s.entries.contains(h) {
        assert(t.entries[s.entries.len() as int] == h);
        assert forall|i: int, j: int|
            0 <= i < t.entries.len() && 0 <= j < t.entries.len() && i != j implies t.entries[i]
            != t.entries[j] by {
            if i < s.entries.len() && j < s.entries.len() {
            } else if i == s.entries.len() {
                assert(s.entries[j] == t.entries[j]);
            } else {
                assert(s.entries[i] == t.entries[i]);
            }
        }
        assert forall|e: Seq<u8>| s.entries.contains(e) implies t.entries.contains(e) by {
            let i = choose|i: int| 0 <= i < s.entries.len() && s.entries[i] == e;
            assert(t.entries[i] == e);
        }
    }
}

/// Deleting edges keeps the records and the log, and leaves every other edge's mark as it was.
pub proof fn lemma_delete_links_frame(s: StoreView, gone: Seq<LinkView>)
    requires
        s.wf(),
    ensures
        s.delete_links(gone).wf(),
        s.delete_links(gone).entries == s.entries,
        s.delete_links(gone).links == s.links,
        forall|j: int|
            0 <= j < s.live.len() && (forall|i: int| 0 <= i < gone.len() ==> gone[i].id != j)
                ==> #[trigger] s.delete_links(gone).live[j] == s.live[j],
    decreases gone.len(),
{
    if gone.len() > 0 {
        lemma_delete_links_frame(s, gone.drop_last());
        assert forall|j: int|
            0 <= j < s.live.len() && (forall|i: int| 0 <= i < gone.len() ==> gone[i].id != j)
            implies #[trigger] s.delete_links(gone).live[j] == s.live[j] by {
            assert forall|i: int| 0 <= i < gone.drop_last().len() implies gone.drop_last()[i].id != j by {
                assert(gone.drop_last()[i] == gone[i]);
            }
            assert(gone.last().id != j);
        }
    }
}

proof fn lemma_live_upto_nonempty(
    links: Seq<LinkView>,
    live: Seq<bool>,
    n: nat,
    k: int,
    base: Seq<u8>,
    tag: Option<Seq<u8>>,
)
    requires
        0 <= k < n <= links.len() == live.len(),
        live[k],
        link_matches(links[k], base, tag),
    ensures
        live_upto(links, live, n, base, tag).len() > 0,
    decreases n,
{
    if n - 1 > k {
        lemma_live_upto_nonempty(links, live, (n - 1) as nat, k, base, tag);
    }
}

/// A live edge that leaves `base` with `tag` makes the live edges found there non-empty.
pub proof fn lemma_live_links_nonempty(s: StoreView, k: int, base: Seq<u8>, tag: Option<Seq<u8>>)
    requires
        s.wf(),
        0 <= k < s.links.len(),
        s.live[k],
        link_matches(s.links[k], base, tag),
    ensures
        s.live_links(base, tag).len() > 0,
{
    lemma_live_upto_nonempty(s.links, s.live, s.links.len(), k, base, tag);
}

/// An in-memory content store and edge index.
pub struct Store {
    entries: Vec<Vec<u8>>,
    links: Vec<Link>,
    live: Vec<bool>,
    /// Every state the store has been in, oldest first: one more after each write.
    history: Ghost<Seq<StoreView>>,
}

impl View for Store {
    type V = StoreView;

    closed spec fn view(&self) -> StoreView {
        StoreView {
            entries: self.entries@.map_values(|e: Vec<u8>| e@),
            links: self.links@.map_values(|l: Link| l@),
            live: self.live@,
        }
    }
}

impl Store {
    /// The states this store has passed through, its first state included.
    pub closed spec fn history(&self) -> Seq<StoreView> {
        self.history@
    }
}

/// The address of a record, computed from the record alone.
pub fn hash_entry(entry: &Entry) -> (r: EntryHash)
    ensures
        r@ == encode_entry(entry@),
{
    EntryHash(entry.encode())
}

impl Store {
    pub fn new() -> (r: Store)
        ensures
            r@.wf(),
            r@.entries.len() == 0,
            r@.links.len() == 0,
            r.history() == seq![r@],
    {
        let mut r = Store {
            entries: Vec::new(),
            links: Vec::new(),
            live: Vec::new(),
            history: Ghost(Seq::empty()),
        };
        assert(r@.entries =~= Seq::<Seq<u8>>::empty());
        assert(r@.links =~= Seq::<LinkView>::empty());
        proof {
            r.history@ = seq![r@];
        }
        r
    }

    /// How many records the store holds.
    pub fn entry_count(&self) -> (r: usize)
        ensures
            r == self@.entries.len(),
    {
        self.entries.len()
    }

    /// How many edges the log holds, deleted ones included.
    pub fn link_count(&self) -> (r: usize)
        ensures
            r == self@.link_count(),
    {
        self.links.len()
    }

    fn position(&self, h: &[u8]) -> (r: Option<usize>)
        ensures
            match r {
                Some(i) => i < self@.entries.len() && self@.entries[i as int] == h@,
                None => !self@.entries.contains(h@),
            },
    {
        let mut i: usize = 0;
        while i < self.entries.len()
            invariant
                i <= self@.entries.len(),
                self@.entries.len() == self.entries@.len(),
                forall|j: int| 0 <= j < i ==> self@.entries[j] != h@,
            decreases self.entries@.len() - i,
        {
            assert(self@.entries[i as int] == self.entries@[i as int]@);
            if bytes_eq(self.entries[i].as_slice(), h) {
                return Some(i);
            }
            i = i + 1;
        }
        None
    }

    /// Stores a record and returns its address; putting the same record again changes nothing.
    pub fn put(&mut self, entry: &Entry) -> (r: EntryHash)
        requires
            old(self)@.wf(),
        ensures
            r@ == encode_entry(entry@),
            final(self)@ == old(self)@.put(r@),
            final(self)@.wf(),
            final(self).history() == old(self).history().push(final(self)@),
    {
        let bytes = entry.encode();
        match self.position(bytes.as_slice()) {
            Some(_) => {},
            None => {
                let ghost before = self@;
                self.entries.push(copy_bytes(bytes.as_slice()));
                assert(self@.entries =~= before.entries.push(bytes@));
                assert(self@.links =~= before.links);
            },
        }
        proof {
            self.history@ = self.history@.push(self@);
        }
        EntryHash(bytes)
    }

    /// The record at `h`; `None` where this store holds none.
    pub fn get(&self, h: &EntryHash) -> (r: Option<Entry>)
        ensures
            self@.get(h@) == match r {
                Some(e) => Some(e@),
                None => None,
            },
    {
        match self.position(h.0.as_slice()) {
            Some(_) => Entry::decode(h.0.as_slice()),
            None => None,
        }
    }

    /// Appends a live edge and returns its id.
    pub fn create_link(&mut self, base: &EntryHash, target: &EntryHash, tag: &[u8]) -> (r: usize)
        requires
            old(self)@.wf(),
        ensures
            final(self)@ == old(self)@.create_link(base@, target@, tag@),
            r == old(self)@.links.len(),
            final(self)@.wf(),
            final(self).history() == old(self).history().push(final(self)@),
    {
        let id = self.links.len();
        let ghost before = self@;
        self.links.push(
            Link { base: base.copy(), target: target.copy(), tag: copy_bytes(tag), create_link_hash: id },
        );
        self.live.push(true);
        assert(self@.links =~= before.links.push(LinkView { base: base@, target: target@, tag: tag@, id: id as nat }));
        assert(self@.live =~= before.live.push(true));
        assert(self@.entries =~= before.entries);
        proof {
            self.history@ = self.history@.push(self@);
        }
        id
    }

    /// Marks the edge with `id` deleted; deleting again, or an unknown id, changes nothing.
    pub fn delete_link(&mut self, id: usize)
        requires
            old(self)@.wf(),
        ensures
            final(self)@ == old(self)@.delete_link(id as nat),
            final(self)@.wf(),
            final(self).history() == old(self).history().push(final(self)@),
    {
        if id < self.live.len() {
            let ghost before = self@;
            self.live.set(id, false);
            assert(self@.live =~= before.live.update(id as int, false));
            assert(self@.links =~= before.links);
            assert(self@.entries =~= before.entries);
        }
        proof {
            self.history@ = self.history@.push(self@);
        }
    }

    /// The live edges that leave `base`, with `tag` where one is given, in creation order.
    pub fn get_links(&self, base: &EntryHash, tag: Option<&[u8]>) -> (r: Vec<Link>)
        requires
            self@.wf(),
        ensures
            r@.map_values(|l: Link| l@) == self@.live_links(
                base@,
                match tag {
                    Some(t) => Some(t@),
                    None => None,
                },
            ),
    {
        let ghost t = match tag {
            Some(t) => Some(t@),
            None => None,
        };
        let mut r: Vec<Link> = Vec::new();
        let mut i: usize = 0;
        while i < self.links.len()
            invariant
                i <= self.links@.len(),
                self@.wf(),
                self@.links.len() == self.links@.len(),
                t == match tag {
                    Some(tg) => Some(tg@),
                    None => None,
                },
                r@.map_values(|l: Link| l@) == live_upto(self@.links, self@.live, i as nat, base@, t),
            decreases self.links@.len() - i,
        {
            let l = &self.links[i];
            assert(self@.links[i as int] == l@);
            assert(self@.live[i as int] == self.live@[i as int]);
            let tag_ok = match tag {
                Some(tg) => {
                    bytes_eq(l.tag.as_slice(), tg)
                },
                None => true,
            };
            if self.live[i] && bytes_eq(l.base.0.as_slice(), base.0.as_slice()) && tag_ok {
                let ghost prev = r@;
                r.push(l.copy());
                assert(r@.map_values(|l: Link| l@) =~= prev.map_values(|l: Link| l@).push(l@));
            }
            assert(live_upto(self@.links, self@.live, (i + 1) as nat, base@, t) == if self@.live[i as int]
                && link_matches(l@, base@, t) {
                live_upto(self@.links, self@.live, i as nat, base@, t).push(l@)
            } else {
                live_upto(self@.links, self@.live, i as nat, base@, t)
            });
            i = i + 1;
        }
        r
    }
}

} // verus!
