//! The set of unspent transaction outputs: a map from a hash to a mark (whether a
//! mempool transaction already spends the output) and the output.
use crate::types::{OutputView, TransactionOutput};
use vstd::prelude::*;

verus! {

/// One entry of the set, as the library reads it: key, then mark and output.
pub type UtxoEntryView = (Seq<u8>, (bool, OutputView));

/// The map a list of entries stands for; a later entry for a key replaces an earlier one.
pub open spec fn entries_map(s: Seq<UtxoEntryView>) -> Map<Seq<u8>, (bool, OutputView)>
    decreases s.len(),
{
    if s.len() == 0 {
        Map::empty()
    } else {
        entries_map(s.drop_last()).insert(s.last().0, s.last().1)
    }
}

/// No key occurs twice.
pub open spec fn keys_distinct(s: Seq<UtxoEntryView>) -> bool {
    forall|i: int, j: int| 0 <= i < j < s.len() ==> s[i].0 != s[j].0
}

pub proof fn lemma_entries_map_dom(s: Seq<UtxoEntryView>, k: Seq<u8>)
    ensures
        entries_map(s).contains_key(k) <==> exists|i: int| 0 <= i < s.len() && s[i].0 == k,
    decreases s.len(),
{
    if s.len() > 0 {
        lemma_entries_map_dom(s.drop_last(), k);
        if entries_map(s).contains_key(k) {
            if k != s.last().0 {
                let i = choose|i: int| 0 <= i < s.drop_last().len() && s.drop_last()[i].0 == k;
                assert(s[i].0 == k);
            } else {
                assert(s[s.len() - 1].0 == k);
            }
        } else {
            assert forall|i: int| 0 <= i < s.len() implies s[i].0 != k by {
                if i < s.len() - 1 {
                    assert(s.drop_last()[i] == s[i]);
                }
            }
        }
    }
}

pub proof fn lemma_entries_map_index(s: Seq<UtxoEntryView>, i: int)
    requires
        keys_distinct(s),
        0 <= i < s.len(),
    ensures
        entries_map(s).contains_key(s[i].0),
        entries_map(s)[s[i].0] == s[i].1,
    decreases s.len(),
{
    if i < s.len() - 1 {
        assert(s.drop_last()[i] == s[i]);
        lemma_entries_map_index(s.drop_last(), i);
    }
}

pub proof fn lemma_entries_map_remove(s: Seq<UtxoEntryView>, i: int)
    requires
        keys_distinct(s),
        0 <= i < s.len(),
    ensures
        keys_distinct(s.remove(i)),
        entries_map(s.remove(i)) == entries_map(s).remove(s[i].0),
    decreases s.len(),
{
    let k = s[i].0;
    if i == s.len() - 1 {
        assert(s.remove(i) =~= s.drop_last());
        lemma_entries_map_dom(s.drop_last(), k);
        assert(!entries_map(s.drop_last()).contains_key(k));
        assert(entries_map(s).remove(k) =~= entries_map(s.drop_last()));
    } else {
        let d = s.drop_last();
        assert(d[i] == s[i]);
        lemma_entries_map_remove(d, i);
        assert(s.remove(i) =~= d.remove(i).push(s.last()));
        assert(s.remove(i).drop_last() =~= d.remove(i));
        assert(s.last().0 != k);
        assert(entries_map(s.remove(i)) =~= entries_map(s).remove(k));
    }
}

pub proof fn lemma_keys_distinct_push(s: Seq<UtxoEntryView>, e: UtxoEntryView)
    requires
        keys_distinct(s),
        !entries_map(s).contains_key(e.0),
    ensures
        keys_distinct(s.push(e)),
{
    lemma_entries_map_dom(s, e.0);
    assert forall|i: int, j: int| 0 <= i < j < s.push(e).len() implies s.push(e)[i].0 != s.push(
        e,
    )[j].0 by {
        if j == s.len() {
            assert(s.push(e)[i] == s[i]);
        }
    }
}

/// The marks of `m` after setting the mark of `k` to `marked`, when `k` is present.
pub open spec fn with_mark(
    m: Map<Seq<u8>, (bool, OutputView)>,
    k: Seq<u8>,
    marked: bool,
) -> Map<Seq<u8>, (bool, OutputView)> {
    if m.contains_key(k) {
        m.insert(k, (marked, m[k].1))
    } else {
        m
    }
}

/// The unspent outputs, each under its hash, with a mark telling whether a transaction
/// waiting in the mempool spends it.
#[derive(Debug)]
pub struct UtxoSet {
    entries: Vec<(crate::sha256::Hash, bool, TransactionOutput)>,
}

impl View for UtxoSet {
    type V = Map<Seq<u8>, (bool, OutputView)>;

    open spec fn view(&self) -> Map<Seq<u8>, (bool, OutputView)> {
        entries_map(self.entries_view())
    }
}

pub open spec fn entry_view(e: (crate::sha256::Hash, bool, TransactionOutput)) -> UtxoEntryView {
    (e.0@, (e.1, e.2@))
}

impl UtxoSet {
    /// The entries in the order they are stored.
    pub closed spec fn entries_view(&self) -> Seq<UtxoEntryView> {
        self.entries@.map_values(|e: (crate::sha256::Hash, bool, TransactionOutput)| entry_view(e))
    }

    /// No key is stored twice.
    pub open spec fn wf(&self) -> bool {
        keys_distinct(self.entries_view())
    }

    /// The empty set.
    pub fn new() -> (r: UtxoSet)
        ensures
            r.wf(),
            r@ == Map::<Seq<u8>, (bool, OutputView)>::empty(),
            r.entries_view().len() == 0,
    {
        let r = UtxoSet { entries: Vec::new() };
        assert(r.entries_view() =~= Seq::<UtxoEntryView>::empty());
        r
    }

    /// The set holding these entries; a later entry for a key replaces an earlier one.
    pub fn from_entries(entries: Vec<(crate::sha256::Hash, bool, TransactionOutput)>) -> (r:
        UtxoSet)
        ensures
            r.wf(),
            r@ == entries_map(
                entries@.map_values(
                    |e: (crate::sha256::Hash, bool, TransactionOutput)| entry_view(e),
                ),
            ),
    {
        let ghost ev = entries@.map_values(
            |e: (crate::sha256::Hash, bool, TransactionOutput)| entry_view(e),
        );
        let mut r = UtxoSet::new();
        let mut rest = entries;
        let mut done: usize = 0;
        let ghost total = ev.len();
        let n = rest.len();
        assert(ev.len() == n);
        while rest.len() > 0
            invariant
                r.wf(),
                done + rest@.len() == total,
                ev.len() == total,
                total <= usize::MAX,
                r@ == entries_map(ev.take(done as int)),
                forall|j: int|
                    0 <= j < rest@.len() ==> #[trigger] entry_view(rest@[j]) == ev[done + j],
            decreases rest@.len(),
        {
            let ghost prev_rest = rest@;
            let (h, marked, out) = rest.remove(0);
            assert(entry_view((h, marked, out)) == ev[done as int]);
            r.insert(h, marked, out);
            assert(ev.take(done + 1).drop_last() =~= ev.take(done as int));
            done += 1;
            assert forall|j: int| 0 <= j < rest@.len() implies #[trigger] entry_view(rest@[j])
                == ev[done + j] by {
                assert(rest@[j] == prev_rest[j + 1]);
            }
        }
        assert(ev.take(done as int) =~= ev);
        r
    }

    /// The entries in the order they are stored.
    pub fn entries(&self) -> (r: &Vec<(crate::sha256::Hash, bool, TransactionOutput)>)
        ensures
            r@.map_values(|e: (crate::sha256::Hash, bool, TransactionOutput)| entry_view(e))
                == self.entries_view(),
    {
        &self.entries
    }

    /// A copy of the set.
    pub fn duplicate(&self) -> (r: UtxoSet)
        ensures
            r.entries_view() == self.entries_view(),
            r@ == self@,
            r.wf() == self.wf(),
    {
        let mut entries: Vec<(crate::sha256::Hash, bool, TransactionOutput)> = Vec::new();
        let mut i: usize = 0;
        while i < self.entries.len()
            invariant
                i <= self.entries@.len(),
                entries@.len() == i,
                forall|j: int|
                    0 <= j < i ==> #[trigger] entry_view(entries@[j]) == entry_view(
                        self.entries@[j],
                    ),
            decreases self.entries@.len() - i,
        {
            let e = &self.entries[i];
            entries.push((e.0, e.1, e.2.duplicate()));
            i += 1;
        }
        let r = UtxoSet { entries };
        assert(r.entries_view() =~= self.entries_view());
        r
    }

    /// How many entries are stored.
    pub fn len(&self) -> (r: usize)
        ensures
            r == self.entries_view().len(),
    {
        self.entries.len()
    }

    /// The entry at position `i`.
    pub fn entry_at(&self, i: usize) -> (r: (&crate::sha256::Hash, bool, &TransactionOutput))
        requires
            i < self.entries_view().len(),
        ensures
            (r.0@, (r.1, r.2@)) == self.entries_view()[i as int],
    {
        let e = &self.entries[i];
        (&e.0, e.1, &e.2)
    }

    fn find(&self, k: &crate::sha256::Hash) -> (r: Option<usize>)
        ensures
            match r {
                Some(i) => i < self.entries_view().len() && self.entries_view()[i as int].0 == k@,
                None => forall|i: int|
                    0 <= i < self.entries_view().len() ==> self.entries_view()[i].0 != k@,
            },
    {
        let mut i: usize = 0;
        while i < self.entries.len()
            invariant
                i <= self.entries@.len(),
                self.entries_view().len() == self.entries@.len(),
                forall|j: int| 0 <= j < i ==> self.entries_view()[j].0 != k@,
            decreases self.entries@.len() - i,
        {
            if self.entries[i].0.equals(k) {
                return Some(i);
            }
            i += 1;
        }
        None
    }

    /// Whether an output is stored under `k`.
    pub fn contains_key(&self, k: &crate::sha256::Hash) -> (r: bool)
        ensures
            r == self@.contains_key(k@),
    {
        proof {
            lemma_entries_map_dom(self.entries_view(), k@);
        }
        self.find(k).is_some()
    }

    /// The mark and the output stored under `k`.
    pub fn get(&self, k: &crate::sha256::Hash) -> (r: Option<(bool, &TransactionOutput)>)
        requires
            self.wf(),
        ensures
            match r {
                Some((marked, out)) => self@.contains_key(k@) && self@[k@] == (marked, out@),
                None => !self@.contains_key(k@),
            },
    {
        proof {
            lemma_entries_map_dom(self.entries_view(), k@);
        }
        match self.find(k) {
            Some(i) => {
                proof {
                    lemma_entries_map_index(self.entries_view(), i as int);
                }
                let e = &self.entries[i];
                Some((e.1, &e.2))
            },
            None => None,
        }
    }

    /// Stores `out` under `k` with mark `marked`, replacing what was there.
    pub fn insert(&mut self, k: crate::sha256::Hash, marked: bool, out: TransactionOutput)
        requires
            old(self).wf(),
        ensures
            final(self).wf(),
            final(self)@ == old(self)@.insert(k@, (marked, out@)),
    {
        let ghost e = (k@, (marked, out@));
        match self.find(&k) {
            Some(i) => {
                proof {
                    lemma_entries_map_remove(self.entries_view(), i as int);
                }
                self.entries.remove(i);
                assert(self.entries_view() =~= old(self).entries_view().remove(i as int));
                assert(self@ == old(self)@.remove(k@));
            },
            None => {
                proof {
                    lemma_entries_map_dom(self.entries_view(), k@);
                }
                assert(self@ =~= old(self)@.remove(k@));
            },
        }
        proof {
            lemma_entries_map_dom(self.entries_view(), k@);
            lemma_keys_distinct_push(self.entries_view(), e);
        }
        let ghost before = self.entries_view();
        self.entries.push((k, marked, out));
        assert(self.entries_view() =~= before.push(e));
        assert(before.push(e).drop_last() =~= before);
        assert(self@ =~= old(self)@.insert(k@, (marked, out@)));
    }

    /// Removes what is stored under `k`.
    pub fn remove(&mut self, k: &crate::sha256::Hash)
        requires
            old(self).wf(),
        ensures
            final(self).wf(),
            final(self)@ == old(self)@.remove(k@),
    {
        match self.find(k) {
            Some(i) => {
                proof {
                    lemma_entries_map_remove(self.entries_view(), i as int);
                }
                self.entries.remove(i);
                assert(self.entries_view() =~= old(self).entries_view().remove(i as int));
            },
            None => {
                proof {
                    lemma_entries_map_dom(self.entries_view(), k@);
                }
                assert(self@ =~= old(self)@.remove(k@));
            },
        }
    }

    /// Sets the mark of the output stored under `k`, when there is one.
    pub fn set_mark(&mut self, k: &crate::sha256::Hash, marked: bool)
        requires
            old(self).wf(),
        ensures
            final(self).wf(),
            final(self)@ == with_mark(old(self)@, k@, marked),
    {
        match self.find(k) {
            Some(i) => {
                proof {
                    lemma_entries_map_index(self.entries_view(), i as int);
                    lemma_entries_map_remove(self.entries_view(), i as int);
                }
                let (h, _, out) = self.entries.remove(i);
                assert(self.entries_view() =~= old(self).entries_view().remove(i as int));
                proof {
                    lemma_entries_map_dom(self.entries_view(), h@);
                    lemma_keys_distinct_push(self.entries_view(), (h@, (marked, out@)));
                }
                let ghost before = self.entries_view();
                self.entries.push((h, marked, out));
                assert(self.entries_view() =~= before.push((h@, (marked, out@))));
                assert(before.push((h@, (marked, out@))).drop_last() =~= before);
                assert(h@ == k@);
                assert(self@ =~= with_mark(old(self)@, k@, marked));
            },
            None => {
                proof {
                    lemma_entries_map_dom(self.entries_view(), k@);
                }
            },
        }
    }
}

} // verus!
