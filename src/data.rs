//! The cache of link previews that a build keeps between runs: a mapping
//! from URL to `(title, description)`, held in key order.
use vstd::prelude::*;

verus! {

/// A cached entry as plain values: the URL and its `(title, description)`.
pub type PreviewEntry = (Seq<char>, (Seq<char>, Seq<char>));

/// The lexicographic order on keys, character by character: the order in
/// which `str` compares and a `BTreeMap` walks its keys.
pub open spec fn key_lt(a: Seq<char>, b: Seq<char>) -> bool
    decreases a.len(),
{
    if a.len() == 0 {
        b.len() > 0
    } else if b.len() == 0 {
        false
    } else if a[0] != b[0] {
        a[0] < b[0]
    } else {
        key_lt(a.drop_first(), b.drop_first())
    }
}

/// No key comes before itself.
pub proof fn lemma_key_lt_irreflexive(a: Seq<char>)
    ensures
        !key_lt(a, a),
    decreases a.len(),
{
    if a.len() > 0 {
        lemma_key_lt_irreflexive(a.drop_first());
    }
}

/// Of two different keys, one comes before the other.
pub proof fn lemma_key_lt_total(a: Seq<char>, b: Seq<char>)
    requires
        a != b,
    ensures
        key_lt(a, b) || key_lt(b, a),
    decreases a.len(),
{
    if a.len() == 0 && b.len() == 0 {
        assert(a =~= b);
    }
    if a.len() > 0 && b.len() > 0 && a[0] == b[0] {
        if a.drop_first() == b.drop_first() {
            assert(a.drop_first().len() == b.drop_first().len());
            assert forall|i: int| 0 <= i < a.len() implies a[i] == b[i] by {
                if i > 0 {
                    assert(a[i] == a.drop_first()[i - 1]);
                    assert(b[i] == b.drop_first()[i - 1]);
                }
            }
            assert(a =~= b);
        }
        lemma_key_lt_total(a.drop_first(), b.drop_first());
    }
}

/// Key order is transitive.
pub proof fn lemma_key_lt_transitive(a: Seq<char>, b: Seq<char>, c: Seq<char>)
    requires
        key_lt(a, b),
        key_lt(b, c),
    ensures
        key_lt(a, c),
    decreases a.len(),
{
    if a.len() > 0 && a[0] == b[0] && b[0] == c[0] {
        lemma_key_lt_transitive(a.drop_first(), b.drop_first(), c.drop_first());
    }
}

/// Each key comes before the next one, so no key appears twice.
pub open spec fn strictly_sorted(s: Seq<PreviewEntry>) -> bool {
    forall|i: int, j: int| 0 <= i < j < s.len() ==> key_lt(#[trigger] s[i].0, #[trigger] s[j].0)
}

/// A position of `s` that holds key `k`, where there is one.
pub open spec fn position_of(s: Seq<PreviewEntry>, k: Seq<char>) -> int {
    choose|i: int| 0 <= i < s.len() && s[i].0 == k
}

/// The mapping that a sequence of entries with distinct keys stands for.
pub open spec fn map_of(s: Seq<PreviewEntry>) -> Map<Seq<char>, (Seq<char>, Seq<char>)> {
    Map::new(
        |k: Seq<char>| exists|i: int| 0 <= i < s.len() && s[i].0 == k,
        |k: Seq<char>| s[position_of(s, k)].1,
    )
}

/// The mapping left by storing the entries of `s` one after the other:
/// a later entry for a key replaces an earlier one.
pub open spec fn previews_of(s: Seq<PreviewEntry>) -> Map<Seq<char>, (Seq<char>, Seq<char>)>
    decreases s.len(),
{
    if s.len() == 0 {
        Map::empty()
    } else {
        previews_of(s.drop_last()).insert(s.last().0, s.last().1)
    }
}

/// An entry of the store as plain values.
pub open spec fn entry_view(e: (String, (String, String))) -> PreviewEntry {
    (e.0@, (e.1.0@, e.1.1@))
}

/// The entries of the store as plain values, in their order.
pub open spec fn entry_views(s: Seq<(String, (String, String))>) -> Seq<PreviewEntry> {
    s.map_values(|e: (String, (String, String))| entry_view(e))
}

/// In a sorted sequence each entry gives the value of its key.
pub proof fn lemma_map_of_at(s: Seq<PreviewEntry>, i: int)
    requires
        strictly_sorted(s),
        0 <= i < s.len(),
    ensures
        map_of(s).contains_key(s[i].0),
        map_of(s)[s[i].0] == s[i].1,
{
    let k = s[i].0;
    assert(map_of(s).dom().contains(k));
    let j = position_of(s, k);
    if j != i {
        lemma_key_lt_irreflexive(k);
        if j < i {
            assert(key_lt(s[j].0, s[i].0));
        } else {
            assert(key_lt(s[i].0, s[j].0));
        }
    }
}

/// The characters of `s`, one by one.
fn chars_of(s: &str) -> (r: Vec<char>)
    ensures
        r@ == s@,
{
    broadcast use vstd::string::axiom_spec_iter;
    let mut r: Vec<char> = Vec::new();
    for c in it: s.chars()
        invariant
            it.seq() == s@,
            r@ == it.seq().take(it.index() as int),
    {
        proof {
            assert(it.seq().take(it.index() + 1) =~= r@.push(c));
        }
        r.push(c);
    }
    proof {
        assert(r@ =~= s@);
    }
    r
}

/// Whether `a` comes before `b` in key order.
fn key_less(a: &str, b: &str) -> (r: bool)
    ensures
        r == key_lt(a@, b@),
{
    let ca = chars_of(a);
    let cb = chars_of(b);
    let mut i: usize = 0;
    proof {
        assert(a@.skip(0) =~= a@);
        assert(b@.skip(0) =~= b@);
    }
    while i < ca.len() && i < cb.len()
        invariant
            i <= ca@.len(),
            i <= cb@.len(),
            ca@ == a@,
            cb@ == b@,
            key_lt(a@, b@) == key_lt(a@.skip(i as int), b@.skip(i as int)),
        decreases ca.len() - i,
    {
        if ca[i] != cb[i] {
            return ca[i] < cb[i];
        }
        proof {
            assert(a@.skip(i as int).drop_first() =~= a@.skip(i + 1));
            assert(b@.skip(i as int).drop_first() =~= b@.skip(i + 1));
        }
        i = i + 1;
    }
    i == ca.len() && i < cb.len()
}

/// The first position of the sorted `entries` whose key does not come
/// before `url`: the place of `url` in key order.
fn search(entries: &Vec<(String, (String, String))>, url: &str) -> (p: usize)
    requires
        strictly_sorted(entry_views(entries@)),
    ensures
        p <= entries.len(),
        forall|i: int| 0 <= i < p ==> key_lt(#[trigger] entry_views(entries@)[i].0, url@),
        forall|i: int|
            p <= i < entries.len() ==> !key_lt(#[trigger] entry_views(entries@)[i].0, url@),
{
    let ghost s = entry_views(entries@);
    let mut lo: usize = 0;
    let mut hi: usize = entries.len();
    while lo < hi
        invariant
            lo <= hi <= entries.len(),
            s == entry_views(entries@),
            strictly_sorted(s),
            forall|i: int| 0 <= i < lo ==> key_lt(#[trigger] s[i].0, url@),
            forall|i: int| hi <= i < s.len() ==> !key_lt(#[trigger] s[i].0, url@),
        decreases hi - lo,
    {
        let mid = lo + (hi - lo) / 2;
        if key_less(entries[mid].0.as_str(), url) {
            proof {
                assert forall|i: int| 0 <= i <= mid implies key_lt(#[trigger] s[i].0, url@) by {
                    if i < mid {
                        lemma_key_lt_transitive(s[i].0, s[mid as int].0, url@);
                    }
                }
            }
            lo = mid + 1;
        } else {
            proof {
                assert forall|i: int| mid <= i < s.len() implies !key_lt(#[trigger] s[i].0, url@) by {
                    if i > mid && key_lt(s[i].0, url@) {
                        lemma_key_lt_transitive(s[mid as int].0, s[i].0, url@);
                    }
                }
            }
            hi = mid;
        }
    }
    lo
}

/// Storing `(k, v)` at position `p` of a sorted sequence, in place of the
/// entry there when it holds `k` and before it otherwise, keeps the order
/// and stores `k` in the mapping.
pub proof fn lemma_insert_at(
    before: Seq<PreviewEntry>,
    after: Seq<PreviewEntry>,
    p: int,
    k: Seq<char>,
    v: (Seq<char>, Seq<char>),
    replace: bool,
)
    requires
        strictly_sorted(before),
        0 <= p <= before.len(),
        forall|i: int| 0 <= i < p ==> key_lt(#[trigger] before[i].0, k),
        p < before.len() ==> !key_lt(before[p].0, k),
        replace == (p < before.len() && !key_lt(k, before[p].0)),
        replace ==> after == before.update(p, (k, v)),
        !replace ==> after == before.insert(p, (k, v)),
    ensures
        strictly_sorted(after),
        map_of(after) == map_of(before).insert(k, v),
{
    let target = map_of(before).insert(k, v);
    if replace {
        if before[p].0 != k {
            lemma_key_lt_total(before[p].0, k);
        }
        assert(forall|i: int| 0 <= i < after.len() ==> #[trigger] after[i].0 == before[i].0);
        assert(strictly_sorted(after));
        assert forall|x: Seq<char>| map_of(after).contains_key(x) == target.contains_key(x) by {
            if target.contains_key(x) && x != k {
                let i = position_of(before, x);
                assert(after[i].0 == x);
            }
            if x == k {
                assert(after[p].0 == k);
            }
        }
        assert forall|x: Seq<char>| #[trigger] map_of(after).contains_key(x) implies map_of(after)[x]
            == target[x] by {
            let i = position_of(after, x);
            lemma_map_of_at(after, i);
            if i != p {
                lemma_map_of_at(before, i);
            }
        }
    } else {
        before.insert_ensures(p, (k, v));
        if p < before.len() {
            lemma_key_lt_total(k, before[p].0);
        }
        assert forall|i: int, j: int| 0 <= i < j < after.len() implies key_lt(
            #[trigger] after[i].0,
            #[trigger] after[j].0,
        ) by {
            if i == p && j - 1 > p {
                assert(key_lt(before[p].0, before[j - 1].0));
                lemma_key_lt_transitive(k, before[p].0, before[j - 1].0);
            } else if i < p && j > p {
                assert(key_lt(before[i].0, before[j - 1].0));
            } else if i > p {
                assert(key_lt(before[i - 1].0, before[j - 1].0));
            }
        }
        assert forall|x: Seq<char>| map_of(after).contains_key(x) == target.contains_key(x) by {
            if target.contains_key(x) && x != k {
                let i = position_of(before, x);
                if i < p {
                    assert(after[i].0 == x);
                } else {
                    assert(after[i + 1].0 == x);
                }
            }
            if x == k {
                assert(after[p].0 == k);
            }
            if map_of(after).contains_key(x) && x != k {
                let i = position_of(after, x);
                if i < p {
                    assert(before[i].0 == x);
                } else if i > p {
                    assert(before[i - 1].0 == x);
                }
            }
        }
        assert forall|x: Seq<char>| #[trigger] map_of(after).contains_key(x) implies map_of(after)[x]
            == target[x] by {
            let i = position_of(after, x);
            lemma_map_of_at(after, i);
            if i != p {
                lemma_key_lt_irreflexive(x);
                if i < p {
                    assert(key_lt(after[i].0, after[p].0));
                } else {
                    assert(key_lt(after[p].0, after[i].0));
                }
            }
            if i < p {
                lemma_map_of_at(before, i);
            } else if i > p {
                lemma_map_of_at(before, i - 1);
            }
        }
    }
    assert(map_of(after) =~= target);
}

/// Reading back what a store hands out loses and adds nothing: a store
/// rebuilt by `ZineData::new` from the entries of `url_previews` of another
/// store holds the same mapping, whatever order the entries were first
/// inserted in.
pub proof fn lemma_round_trip(s: Seq<PreviewEntry>)
    requires
        strictly_sorted(s),
    ensures
        previews_of(s) == map_of(s),
    decreases s.len(),
{
    if s.len() == 0 {
        assert(map_of(s) =~= Map::empty());
    } else {
        let before = s.drop_last();
        let p = before.len() as int;
        assert(strictly_sorted(before));
        lemma_round_trip(before);
        assert(s =~= before.insert(p, s.last()));
        lemma_insert_at(before, s, p, s.last().0, s.last().1, false);
    }
}

/// Of two previews stored under one URL, only the second stays.
pub proof fn lemma_last_write_wins(
    m: Map<Seq<char>, (Seq<char>, Seq<char>)>,
    url: Seq<char>,
    first: (Seq<char>, Seq<char>),
    second: (Seq<char>, Seq<char>),
)
    ensures
        m.insert(url, first).insert(url, second) == m.insert(url, second),
        m.insert(url, first).insert(url, second)[url] == second,
{
    assert(m.insert(url, first).insert(url, second) =~= m.insert(url, second));
}

/// The cached link previews, held in key order with no key twice.
pub struct ZineData {
    url_previews: Vec<(String, (String, String))>,
}

impl View for ZineData {
    type V = Map<Seq<char>, (Seq<char>, Seq<char>)>;

    open spec fn view(&self) -> Self::V {
        map_of(self.entries())
    }
}

impl ZineData {
    /// The entries as plain values, in the order in which they are held.
    pub closed spec fn entries(&self) -> Seq<PreviewEntry> {
        entry_views(self.url_previews@)
    }

    #[verifier::type_invariant]
    spec fn sorted(&self) -> bool {
        strictly_sorted(self.entries())
    }

    /// A store holding `stored`, the entries read back from an earlier
    /// export, one after the other (a later entry for a key wins); an empty
    /// store where nothing was stored.
    pub fn new(stored: Option<Vec<(String, (String, String))>>) -> (r: ZineData)
        ensures
            match stored {
                Some(s) => r@ == previews_of(entry_views(s@)),
                None => r@ == Map::<Seq<char>, (Seq<char>, Seq<char>)>::empty(),
            },
    {
        let mut r = ZineData { url_previews: Vec::new() };
        proof {
            assert(r@ =~= Map::empty());
        }
        match stored {
            None => {},
            Some(s) => {
                let ghost all = entry_views(s@);
                for item in it: s.into_iter()
                    invariant
                        all == entry_views(it.seq()),
                        r@ == previews_of(all.take(it.index() as int)),
                {
                    let ghost i = it.index() as int;
                    proof {
                        assert(all.take(i + 1).drop_last() =~= all.take(i));
                    }
                    let (url, preview) = item;
                    r.insert_url_preview(url.as_str(), preview);
                }
                proof {
                    assert(all.take(all.len() as int) =~= all);
                }
            },
        }
        r
    }

    /// Whether no preview is cached.
    pub fn is_empty(&self) -> (r: bool)
        ensures
            r == (self@ == Map::<Seq<char>, (Seq<char>, Seq<char>)>::empty()),
    {
        proof {
            use_type_invariant(self);
        }
        let r = self.url_previews.is_empty();
        proof {
            if r {
                assert(self@ =~= Map::empty());
            } else {
                lemma_map_of_at(self.entries(), 0);
                assert(self@.contains_key(self.entries()[0].0));
            }
        }
        r
    }

    /// The cached previews in key order.
    pub fn url_previews(&self) -> (r: &Vec<(String, (String, String))>)
        ensures
            entry_views(r@) == self.entries(),
            strictly_sorted(entry_views(r@)),
            map_of(entry_views(r@)) == self@,
    {
        proof {
            use_type_invariant(self);
        }
        &self.url_previews
    }

    /// Stores the preview of `url`, replacing the one cached before.
    pub fn insert_url_preview(&mut self, url: &str, preview: (String, String))
        ensures
            final(self)@ == old(self)@.insert(url@, (preview.0@, preview.1@)),
    {
        proof {
            use_type_invariant(&*self);
        }
        let ghost before = self.entries();
        let ghost val = (preview.0@, preview.1@);
        let mut entries: Vec<(String, (String, String))> = Vec::new();
        std::mem::swap(&mut entries, &mut self.url_previews);
        let p = search(&entries, url);
        let replace = p < entries.len() && !key_less(url, entries[p].0.as_str());
        let entry = (url.to_owned(), preview);
        if replace {
            entries[p] = entry;
            proof {
                assert(entry_views(entries@) =~= before.update(p as int, (url@, val)));
            }
        } else {
            entries.insert(p, entry);
            proof {
                assert(entry_views(entries@) =~= before.insert(p as int, (url@, val)));
            }
        }
        proof {
            lemma_insert_at(before, entry_views(entries@), p as int, url@, val, replace);
        }
        self.url_previews = entries;
    }

}

} // verus!
