//! The seen-item store: for each feed URL, the set of entry keys already processed.

use vstd::prelude::*;

verus! {

/// The strings of `ks`, as a set of character sequences.
pub open spec fn key_set(ks: Seq<String>) -> Set<Seq<char>> {
    Set::new(|k: Seq<char>| exists|j: int| 0 <= j < ks.len() && ks[j]@ == k)
}

/// No two strings of `ks` are equal.
pub open spec fn keys_distinct(ks: Seq<String>) -> bool {
    forall|a: int, b: int|
        0 <= a < ks.len() && 0 <= b < ks.len() && a != b ==> ks[a]@ != ks[b]@
}

/// The keys recorded for feed `u` in the model `m`; empty for an unknown feed.
pub open spec fn seen_of(m: Map<Seq<char>, Set<Seq<char>>>, u: Seq<char>) -> Set<Seq<char>> {
    if m.contains_key(u) {
        m[u]
    } else {
        Set::empty()
    }
}

/// One feed's record: its URL and the keys of its entries seen so far.
pub struct FeedSeen {
    url: String,
    keys: Vec<String>,
}

/// A mapping from feed URL to the set of entry keys already processed for it.
pub struct SeenItems {
    feeds: Vec<FeedSeen>,
}

impl View for SeenItems {
    type V = Map<Seq<char>, Set<Seq<char>>>;

    closed spec fn view(&self) -> Map<Seq<char>, Set<Seq<char>>> {
        Map::new(
            |u: Seq<char>| self.has_feed_at(u, self.index_of(u)),
            |u: Seq<char>| key_set(self.feeds@[self.index_of(u)].keys@),
        )
    }
}

impl SeenItems {
    /// Position `i` holds the record of feed `u`.
    pub closed spec fn has_feed_at(&self, u: Seq<char>, i: int) -> bool {
        0 <= i < self.feeds@.len() && self.feeds@[i].url@ == u
    }

    pub closed spec fn index_of(&self, u: Seq<char>) -> int {
        choose|i: int| self.has_feed_at(u, i)
    }

    /// Feed URLs are unique, and so are the keys within one feed.
    pub closed spec fn wf(&self) -> bool {
        &&& forall|i: int, j: int|
            0 <= i < self.feeds@.len() && 0 <= j < self.feeds@.len() && i != j
                ==> self.feeds@[i].url@ != self.feeds@[j].url@
        &&& forall|i: int| 0 <= i < self.feeds@.len() ==> keys_distinct(#[trigger] self.feeds@[i].keys@)
    }

    proof fn lemma_view_at(&self, i: int)
        requires
            self.wf(),
            0 <= i < self.feeds@.len(),
        ensures
            self@.contains_key(self.feeds@[i].url@),
            self@[self.feeds@[i].url@] == key_set(self.feeds@[i].keys@),
    {
        let u = self.feeds@[i].url@;
        assert(self.has_feed_at(u, i));
        assert(self.index_of(u) == i);
    }

    /// An empty store: no feed has been seen.
    pub fn new() -> (r: SeenItems)
        ensures
            r.wf(),
            r@ == Map::<Seq<char>, Set<Seq<char>>>::empty(),
    {
        let r = SeenItems { feeds: Vec::new() };
        assert(r@ =~= Map::<Seq<char>, Set<Seq<char>>>::empty());
        r
    }

    /// The position of feed `url`, if it has a record.
    fn find(&self, url: &String) -> (r: Option<usize>)
        ensures
            match r {
                Some(i) => self.has_feed_at(url@, i as int),
                None => forall|i: int| !self.has_feed_at(url@, i),
            },
    {
        let mut i: usize = 0;
        while i < self.feeds.len()
            invariant
                i <= self.feeds@.len(),
                forall|j: int| 0 <= j < i ==> !self.has_feed_at(url@, j),
            decreases self.feeds@.len() - i,
        {
            if self.feeds[i].url == *url {
                return Some(i);
            }
            i = i + 1;
        }
        None
    }

    /// Whether `key` has been recorded for feed `url`; false for an unknown feed.
    pub fn contains(&self, url: &str, key: &str) -> (r: bool)
        requires
            self.wf(),
        ensures
            r == seen_of(self@, url@).contains(key@),
    {
        let u = url.to_owned();
        let k = key.to_owned();
        match self.find(&u) {
            None => {
                assert(!self@.contains_key(u@));
                false
            },
            Some(i) => {
                proof {
                    self.lemma_view_at(i as int);
                }
                keys_contain(&self.feeds[i].keys, &k)
            },
        }
    }
}


impl SeenItems {
    /// Two stores with the same URLs at every position, whose keys differ only at
    /// position `i`, differ in their views only at that URL.
    proof fn lemma_view_update(&self, other: &SeenItems, i: int)
        requires
            self.wf(),
            other.wf(),
            0 <= i < self.feeds@.len(),
            other.feeds@.len() == self.feeds@.len(),
            forall|j: int| 0 <= j < self.feeds@.len() ==> #[trigger] other.feeds@[j].url@ == self.feeds@[j].url@,
            forall|j: int| 0 <= j < self.feeds@.len() && j != i ==> #[trigger] other.feeds@[j].keys@ == self.feeds@[j].keys@,
        ensures
            other@ == self@.insert(self.feeds@[i].url@, key_set(other.feeds@[i].keys@)),
    {
        let u = self.feeds@[i].url@;
        other.lemma_view_at(i);
        assert forall|w: Seq<char>| #[trigger] other@.contains_key(w) == self@.insert(u, key_set(other.feeds@[i].keys@)).contains_key(w) by {
            if self@.contains_key(w) {
                assert(other.has_feed_at(w, self.index_of(w)));
            }
            if other@.contains_key(w) {
                assert(self.has_feed_at(w, other.index_of(w)));
            }
        }
        assert forall|w: Seq<char>| #[trigger] other@.contains_key(w) && w != u implies other@[w] == self@[w] by {
            let j = other.index_of(w);
            assert(self.has_feed_at(w, j));
            self.lemma_view_at(j);
            other.lemma_view_at(j);
        }
        assert(other@ =~= self@.insert(u, key_set(other.feeds@[i].keys@)));
    }

    /// The position of feed `url`, after giving it an empty record if it had none.
    fn slot(&mut self, url: &String) -> (r: usize)
        requires
            old(self).wf(),
        ensures
            final(self).wf(),
            final(self).has_feed_at(url@, r as int),
            final(self)@ == old(self)@.insert(url@, seen_of(old(self)@, url@)),
    {
        match self.find(url) {
            Some(i) => {
                proof {
                    self.lemma_view_at(i as int);
                    assert(self@.insert(url@, seen_of(self@, url@)) =~= self@);
                }
                i
            },
            None => {
                let ghost before = *self;
                self.feeds.push(FeedSeen { url: url.clone(), keys: Vec::new() });
                let n = self.feeds.len() - 1;
                proof {
                    let m = before@.insert(url@, Set::empty());
                    assert(!before@.contains_key(url@));
                    assert(self.feeds@[n as int].url@ == url@);
                    assert forall|j: int| 0 <= j < n implies #[trigger] self.feeds@[j] == before.feeds@[j] by {}
                    assert forall|j: int| 0 <= j < n implies #[trigger] self.feeds@[j].url@ != url@ by {
                        assert(!before.has_feed_at(url@, j));
                    }
                    assert(self.wf());
                    self.lemma_view_at(n as int);
                    assert(key_set(Seq::<String>::empty()) =~= Set::empty());
                    assert forall|w: Seq<char>| #[trigger] self@.contains_key(w) == m.contains_key(w) by {
                        if before@.contains_key(w) {
                            assert(self.has_feed_at(w, before.index_of(w)));
                        }
                        if self@.contains_key(w) && w != url@ {
                            assert(before.has_feed_at(w, self.index_of(w)));
                        }
                    }
                    assert forall|w: Seq<char>| #[trigger] self@.contains_key(w) && w != url@ implies self@[w] == m[w] by {
                        let j = self.index_of(w);
                        assert(before.has_feed_at(w, j));
                        before.lemma_view_at(j);
                        self.lemma_view_at(j);
                    }
                    assert(self@ =~= m);
                }
                n
            },
        }
    }

    /// Gives feed `url` an empty record if it has none; its keys stay as they were.
    pub fn add_feed(&mut self, url: &str)
        requires
            old(self).wf(),
        ensures
            final(self).wf(),
            final(self)@ == old(self)@.insert(url@, seen_of(old(self)@, url@)),
    {
        let u = url.to_owned();
        self.slot(&u);
    }

    /// Records `key` as seen for feed `url`, creating the feed's record if absent.
    /// Recording a key that is already there changes nothing.
    pub fn mark_seen(&mut self, url: &str, key: &str)
        requires
            old(self).wf(),
        ensures
            final(self).wf(),
            final(self)@ == old(self)@.insert(url@, seen_of(old(self)@, url@).insert(key@)),
    {
        let u = url.to_owned();
        let k = key.to_owned();
        self.add_key(&u, k);
    }

    fn add_key(&mut self, u: &String, k: String)
        requires
            old(self).wf(),
        ensures
            final(self).wf(),
            final(self)@ == old(self)@.insert(u@, seen_of(old(self)@, u@).insert(k@)),
    {
        let ghost start = *self;
        let i = self.slot(u);
        proof {
            self.lemma_view_at(i as int);
        }
        if !keys_contain(&self.feeds[i].keys, &k) {
            let ghost before = *self;
            self.feeds[i].keys.push(k);
            proof {
                let ks = self.feeds@[i as int].keys@;
                assert(ks == before.feeds@[i as int].keys@.push(k));
                assert forall|a: int, b: int| 0 <= a < ks.len() && 0 <= b < ks.len() && a != b implies ks[a]@ != ks[b]@ by {
                    if a == ks.len() - 1 {
                        assert(before.feeds@[i as int].keys@[b] == ks[b]);
                    } else if b == ks.len() - 1 {
                        assert(before.feeds@[i as int].keys@[a] == ks[a]);
                    }
                }
                assert(self.wf());
                before.lemma_view_update(self, i as int);
                let olds = before.feeds@[i as int].keys@;
                assert forall|w: Seq<char>| #[trigger] key_set(ks).contains(w) == key_set(olds).insert(k@).contains(w) by {
                    if key_set(ks).contains(w) {
                        let j = choose|j: int| 0 <= j < ks.len() && ks[j]@ == w;
                        if j < olds.len() {
                            assert(olds[j] == ks[j]);
                        }
                    }
                    if key_set(olds).contains(w) {
                        let j = choose|j: int| 0 <= j < olds.len() && olds[j]@ == w;
                        assert(ks[j] == olds[j]);
                    }
                    if w == k@ {
                        assert(ks[ks.len() - 1]@ == k@);
                    }
                }
                assert(key_set(ks) =~= key_set(olds).insert(k@));
                assert(self@ =~= start@.insert(u@, seen_of(start@, u@).insert(k@)));
            }
        } else {
            proof {
                assert(seen_of(start@, u@).insert(k@) =~= seen_of(start@, u@));
            }
        }
    }
}

/// The strings `ks` as character sequences.
pub open spec fn strings_view(ks: Seq<String>) -> Seq<Seq<char>> {
    ks.map_values(|s: String| s@)
}

/// A saved record of one feed, as plain values: its URL and its keys.
pub open spec fn record_view(r: (String, Vec<String>)) -> (Seq<char>, Seq<Seq<char>>) {
    (r.0@, strings_view(r.1@))
}

pub open spec fn records_view(rs: Seq<(String, Vec<String>)>) -> Seq<(Seq<char>, Seq<Seq<char>>)> {
    rs.map_values(|r: (String, Vec<String>)| record_view(r))
}

/// The store that the saved records `rs` describe: a feed is known when a record
/// names it, and a key is recorded for it when a record of that feed lists it.
pub open spec fn records_model(rs: Seq<(Seq<char>, Seq<Seq<char>>)>) -> Map<Seq<char>, Set<Seq<char>>> {
    Map::new(
        |u: Seq<char>| exists|i: int| 0 <= i < rs.len() && rs[i].0 == u,
        |u: Seq<char>|
            Set::new(
                |k: Seq<char>|
                    exists|i: int, j: int|
                        0 <= i < rs.len() && rs[i].0 == u && 0 <= j < rs[i].1.len() && rs[i].1[j] == k,
            ),
    )
}

/// The elements of `ks`, as a set.
pub open spec fn seq_set(ks: Seq<Seq<char>>) -> Set<Seq<char>> {
    Set::new(|k: Seq<char>| exists|j: int| 0 <= j < ks.len() && ks[j] == k)
}

proof fn lemma_records_model_push(rs: Seq<(Seq<char>, Seq<Seq<char>>)>, i: int)
    requires
        0 <= i < rs.len(),
    ensures
        records_model(rs.take(i + 1)) == records_model(rs.take(i)).insert(
            rs[i].0,
            seen_of(records_model(rs.take(i)), rs[i].0).union(seq_set(rs[i].1)),
        ),
{
    let a = rs.take(i + 1);
    let b = rs.take(i);
    let u = rs[i].0;
    let lhs = records_model(a);
    let rhs = records_model(b).insert(u, seen_of(records_model(b), u).union(seq_set(rs[i].1)));
    assert(a[i] == rs[i]);
    assert forall|w: Seq<char>| #[trigger] lhs.contains_key(w) == rhs.contains_key(w) by {
        if lhs.contains_key(w) {
            let x = choose|x: int| 0 <= x < a.len() && a[x].0 == w;
            if x < i {
                assert(b[x] == a[x]);
            }
        }
        if records_model(b).contains_key(w) {
            let x = choose|x: int| 0 <= x < b.len() && b[x].0 == w;
            assert(a[x] == b[x]);
        }
    }
    assert forall|w: Seq<char>| #[trigger] lhs.contains_key(w) implies lhs[w] == rhs[w] by {
        assert forall|k: Seq<char>| #[trigger] lhs[w].contains(k) == rhs[w].contains(k) by {
            if lhs[w].contains(k) {
                let (x, y) = choose|x: int, y: int|
                    0 <= x < a.len() && a[x].0 == w && 0 <= y < a[x].1.len() && a[x].1[y] == k;
                if x < i {
                    assert(b[x] == a[x]);
                    assert(records_model(b).contains_key(w));
                } else {
                    assert(seq_set(rs[i].1).contains(k));
                }
            }
            if rhs[w].contains(k) {
                if w == u && seq_set(rs[i].1).contains(k) {
                    let y = choose|y: int| 0 <= y < rs[i].1.len() && rs[i].1[y] == k;
                    assert(a[i].1[y] == k);
                } else {
                    let (x, y) = choose|x: int, y: int|
                        0 <= x < b.len() && b[x].0 == w && 0 <= y < b[x].1.len() && b[x].1[y] == k;
                    assert(a[x] == b[x]);
                }
            }
        }
        assert(lhs[w] =~= rhs[w]);
    }
    assert(lhs =~= rhs);
}

impl SeenItems {
    /// The store as saved records, one per feed, in the order of the records.
    pub closed spec fn saved(&self) -> Seq<(Seq<char>, Seq<Seq<char>>)> {
        self.feeds@.map_values(|f: FeedSeen| (f.url@, strings_view(f.keys@)))
    }

    /// The store as records of plain values, one per feed: its URL and its keys.
    pub fn to_records(&self) -> (r: Vec<(String, Vec<String>)>)
        requires
            self.wf(),
        ensures
            records_view(r@) == self.saved(),
            records_model(records_view(r@)) == self@,
            forall|i: int, j: int|
                0 <= i < r@.len() && 0 <= j < r@.len() && i != j ==> r@[i].0@ != r@[j].0@,
            forall|i: int| 0 <= i < r@.len() ==> keys_distinct(#[trigger] r@[i].1@),
    {
        let mut r: Vec<(String, Vec<String>)> = Vec::new();
        let mut i: usize = 0;
        while i < self.feeds.len()
            invariant
                i <= self.feeds@.len(),
                records_view(r@) == self.saved().take(i as int),
            decreases self.feeds@.len() - i,
        {
            let f = &self.feeds[i];
            let mut ks: Vec<String> = Vec::new();
            let mut j: usize = 0;
            while j < f.keys.len()
                invariant
                    j <= f.keys@.len(),
                    i < self.feeds@.len(),
                    *f == self.feeds@[i as int],
                    records_view(r@) == self.saved().take(i as int),
                    strings_view(ks@) == strings_view(f.keys@).take(j as int),
                decreases f.keys@.len() - j,
            {
                let ghost before = ks@;
                ks.push(f.keys[j].clone());
                assert(ks@ == before.push(f.keys@[j as int]));
                proof {
                    assert(strings_view(before).len() == before.len());
                    assert(before.len() == j);
                    assert forall|x: int| 0 <= x <= j implies #[trigger] strings_view(ks@)[x] == strings_view(f.keys@)[x] by {
                        if x < j {
                            assert(strings_view(before)[x] == strings_view(f.keys@).take(j as int)[x]);
                            assert(ks@[x] == before[x]);
                        }
                    }
                }
                j = j + 1;
                assert(strings_view(ks@) =~= strings_view(f.keys@).take(j as int));
            }
            assert(strings_view(f.keys@).take(j as int) =~= strings_view(f.keys@));
            let ghost before = r@;
            r.push((f.url.clone(), ks));
            proof {
                assert(records_view(r@) =~= records_view(before).push(record_view(r@[i as int])));
                assert(record_view(r@[i as int]) == self.saved()[i as int]);
            }
            i = i + 1;
            assert(records_view(r@) =~= self.saved().take(i as int));
        }
        assert(self.saved().take(i as int) =~= self.saved());
        proof {
            self.lemma_save_then_load();
            assert forall|x: int| 0 <= x < r@.len() implies r@[x].0@ == self.feeds@[x].url@
                && strings_view(r@[x].1@) == strings_view(self.feeds@[x].keys@) by {
                assert(records_view(r@)[x] == self.saved()[x]);
            }
            assert forall|x: int| 0 <= x < r@.len() implies keys_distinct(#[trigger] r@[x].1@) by {
                let ks = r@[x].1@;
                let fs = self.feeds@[x].keys@;
                assert(keys_distinct(fs));
                assert(strings_view(ks).len() == ks.len() && strings_view(fs).len() == fs.len());
                assert forall|a: int, b: int| 0 <= a < ks.len() && 0 <= b < ks.len() && a != b
                    implies ks[a]@ != ks[b]@ by {
                    assert(strings_view(ks)[a] == strings_view(fs)[a]);
                    assert(strings_view(ks)[b] == strings_view(fs)[b]);
                    assert(fs[a]@ != fs[b]@);
                }
            }
        }
        r
    }

    /// Saving a store and loading what was saved gives back the same store: the
    /// same feeds, and for each feed the same keys.
    pub proof fn lemma_save_then_load(&self)
        requires
            self.wf(),
        ensures
            records_model(self.saved()) == self@,
            forall|u: Seq<char>, k: Seq<char>|
                seen_of(records_model(self.saved()), u).contains(k) == #[trigger] seen_of(self@, u).contains(k),
    {
        let sv = self.saved();
        let lhs = records_model(sv);
        assert forall|w: Seq<char>| #[trigger] lhs.contains_key(w) == self@.contains_key(w) by {
            if lhs.contains_key(w) {
                let x = choose|x: int| 0 <= x < sv.len() && sv[x].0 == w;
                assert(self.has_feed_at(w, x));
            }
            if self@.contains_key(w) {
                let x = self.index_of(w);
                assert(sv[x].0 == w);
            }
        }
        assert forall|w: Seq<char>| #[trigger] lhs.contains_key(w) implies lhs[w] == self@[w] by {
            let x = self.index_of(w);
            self.lemma_view_at(x);
            assert forall|k: Seq<char>| #[trigger] lhs[w].contains(k) == self@[w].contains(k) by {
                if lhs[w].contains(k) {
                    let (a, b) = choose|a: int, b: int|
                        0 <= a < sv.len() && sv[a].0 == w && 0 <= b < sv[a].1.len() && sv[a].1[b] == k;
                    assert(self.has_feed_at(w, a));
                    assert(self.feeds@[a].keys@[b]@ == k);
                }
                if self@[w].contains(k) {
                    let b = choose|b: int| 0 <= b < self.feeds@[x].keys@.len() && self.feeds@[x].keys@[b]@ == k;
                    assert(sv[x].1[b] == k);
                }
            }
            assert(lhs[w] =~= self@[w]);
        }
        assert(lhs =~= self@);
    }

    /// The store that saved records describe. A feed named by several records
    /// gets the keys of all of them.
    pub fn from_records(rs: &Vec<(String, Vec<String>)>) -> (r: SeenItems)
        ensures
            r.wf(),
            r@ == records_model(records_view(rs@)),
    {
        let ghost rv = records_view(rs@);
        let mut r = SeenItems::new();
        proof {
            assert(records_model(rv.take(0)) =~= Map::<Seq<char>, Set<Seq<char>>>::empty());
        }
        let mut i: usize = 0;
        while i < rs.len()
            invariant
                i <= rs@.len(),
                rv == records_view(rs@),
                r.wf(),
                r@ == records_model(rv.take(i as int)),
            decreases rs@.len() - i,
        {
            let u = &rs[i].0;
            let ks = &rs[i].1;
            let ghost m = r@;
            let ghost s = seen_of(m, u@);
            let ghost kv = rv[i as int].1;
            proof {
                assert(rv[i as int] == record_view(rs@[i as int]));
                assert(s.union(seq_set(kv.take(0))) =~= s);
            }
            r.add_feed(u.as_str());
            let mut j: usize = 0;
            while j < ks.len()
                invariant
                    j <= ks@.len(),
                    kv == strings_view(ks@),
                    s == seen_of(m, u@),
                    r.wf(),
                    r@ == m.insert(u@, s.union(seq_set(kv.take(j as int)))),
                decreases ks@.len() - j,
            {
                let k = ks[j].clone();
                r.add_key(u, k);
                proof {
                    let a = kv.take(j + 1);
                    let b = kv.take(j as int);
                    assert forall|w: Seq<char>| #[trigger] seq_set(a).contains(w) == seq_set(b).insert(kv[j as int]).contains(w) by {
                        if seq_set(a).contains(w) {
                            let y = choose|y: int| 0 <= y < a.len() && a[y] == w;
                            if y < j {
                                assert(b[y] == a[y]);
                            }
                        }
                        if seq_set(b).contains(w) {
                            let y = choose|y: int| 0 <= y < b.len() && b[y] == w;
                            assert(a[y] == b[y]);
                        }
                        if w == kv[j as int] {
                            assert(a[j as int] == kv[j as int]);
                        }
                    }
                    assert(s.union(seq_set(a)) =~= s.union(seq_set(b)).insert(kv[j as int]));
                }
                j = j + 1;
            }
            proof {
                assert(kv.take(j as int) =~= kv);
                lemma_records_model_push(rv, i as int);
            }
            i = i + 1;
        }
        proof {
            assert(rv.take(i as int) =~= rv);
        }
        r
    }
}

/// Whether one of `ks` equals `k`.
fn keys_contain(ks: &Vec<String>, k: &String) -> (r: bool)
    ensures
        r == key_set(ks@).contains(k@),
{
    let mut j: usize = 0;
    while j < ks.len()
        invariant
            j <= ks@.len(),
            forall|a: int| 0 <= a < j ==> ks@[a]@ != k@,
        decreases ks@.len() - j,
    {
        if ks[j] == *k {
            assert(key_set(ks@).contains(k@));
            return true;
        }
        j = j + 1;
    }
    false
}

} // verus!
