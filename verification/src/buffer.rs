use vstd::prelude::*;
use vstd::pervasive::VecAdditionalExecFns;
use crate::errors::FetchError;
use crate::hash::{absorbed, sha256_of, HashState};

verus! {

/// The model of one buffered chunk: its believed starting offset and its
/// bytes.
pub open spec fn entry_views(es: Seq<(usize, Vec<u8>)>) -> Seq<(int, Seq<u8>)> {
    es.map_values(|e: (usize, Vec<u8>)| (e.0 as int, e.1@))
}

/// Offsets strictly ascending: the buffer is an ordered mapping with
/// unique keys.
pub open spec fn entries_sorted(s: Seq<(int, Seq<u8>)>) -> bool {
    forall|i: int, j: int| 0 <= i < j < s.len() ==> s[i].0 < s[j].0
}

/// Sorted entries with the entry at `k` replaced, or with `(k, v)` put in
/// at its ordered position.
pub open spec fn sorted_insert(s: Seq<(int, Seq<u8>)>, k: int, v: Seq<u8>) -> Seq<(int, Seq<u8>)>
    decreases s.len(),
{
    if s.len() == 0 {
        seq![(k, v)]
    } else if s[0].0 < k {
        seq![s[0]] + sorted_insert(s.drop_first(), k, v)
    } else if s[0].0 == k {
        seq![(k, v)] + s.drop_first()
    } else {
        seq![(k, v)] + s
    }
}

/// The buffer as a mapping from offset to chunk bytes.
pub open spec fn entry_map_of(s: Seq<(int, Seq<u8>)>) -> Map<int, Seq<u8>>
    decreases s.len(),
{
    if s.len() == 0 {
        Map::empty()
    } else {
        entry_map_of(s.drop_first()).insert(s[0].0, s[0].1)
    }
}

/// Whether `k` is among the recorded offsets.
pub open spec fn key_in(s: Seq<(int, Seq<u8>)>, k: int) -> bool
    decreases s.len(),
{
    if s.len() == 0 {
        false
    } else {
        s[0].0 == k || key_in(s.drop_first(), k)
    }
}

pub proof fn lemma_entry_map_dom(s: Seq<(int, Seq<u8>)>)
    ensures
        forall|k: int| #[trigger] entry_map_of(s).dom().contains(k) <==> key_in(s, k),
    decreases s.len(),
{
    if s.len() > 0 {
        lemma_entry_map_dom(s.drop_first());
        assert forall|k: int| #[trigger] entry_map_of(s).dom().contains(k) <==> key_in(s, k) by {
            assert(entry_map_of(s) == entry_map_of(s.drop_first()).insert(s[0].0, s[0].1));
            if k != s[0].0 {
                assert(entry_map_of(s).dom().contains(k) <==> entry_map_of(
                    s.drop_first(),
                ).dom().contains(k));
            }
        }
    }
}

pub proof fn lemma_key_ge_head(s: Seq<(int, Seq<u8>)>, k: int)
    requires
        entries_sorted(s),
        key_in(s, k),
    ensures
        s.len() > 0 && k >= s[0].0,
    decreases s.len(),
{
    let d = s.drop_first();
    assert(forall|i: int| 0 <= i < d.len() ==> d[i] == s[i + 1]);
    if s[0].0 != k {
        assert(entries_sorted(d));
        lemma_key_ge_head(d, k);
        assert(d[0] == s[1]);
    }
}

/// A sorted buffer is determined by the mapping it holds: two sorted
/// entry sequences with the same offset-to-chunk mapping are equal, so
/// the buffer's state does not depend on the order chunks arrived in.
pub proof fn lemma_sorted_unique(a: Seq<(int, Seq<u8>)>, b: Seq<(int, Seq<u8>)>)
    requires
        entries_sorted(a),
        entries_sorted(b),
        entry_map_of(a) == entry_map_of(b),
    ensures
        a == b,
    decreases a.len(),
{
    lemma_entry_map_dom(a);
    lemma_entry_map_dom(b);
    if a.len() == 0 {
        if b.len() > 0 {
            assert(key_in(b, b[0].0));
            assert(entry_map_of(a).dom().contains(b[0].0));
            assert(false);
        }
        assert(a =~= b);
    } else if b.len() == 0 {
        assert(key_in(a, a[0].0));
        assert(entry_map_of(b).dom().contains(a[0].0));
        assert(false);
    } else {
        let da = a.drop_first();
        let db = b.drop_first();
        assert(forall|i: int| 0 <= i < da.len() ==> da[i] == a[i + 1]);
        assert(forall|i: int| 0 <= i < db.len() ==> db[i] == b[i + 1]);
        assert(entries_sorted(da));
        assert(entries_sorted(db));
        // the two heads carry the smallest offset of the shared mapping
        assert(key_in(a, a[0].0));
        assert(entry_map_of(a).dom().contains(a[0].0));
        assert(entry_map_of(b).dom().contains(a[0].0));
        assert(key_in(b, a[0].0));
        lemma_key_ge_head(b, a[0].0);
        assert(key_in(b, b[0].0));
        assert(entry_map_of(b).dom().contains(b[0].0));
        assert(entry_map_of(a).dom().contains(b[0].0));
        assert(key_in(a, b[0].0));
        lemma_key_ge_head(a, b[0].0);
        assert(a[0].0 == b[0].0);
        // and the same chunk: the head's offset appears nowhere later
        assert(!key_in(da, a[0].0)) by {
            if key_in(da, a[0].0) {
                lemma_key_ge_head(da, a[0].0);
                assert(da[0] == a[1]);
            }
        }
        assert(!key_in(db, b[0].0)) by {
            if key_in(db, b[0].0) {
                lemma_key_ge_head(db, b[0].0);
                assert(db[0] == b[1]);
            }
        }
        lemma_entry_map_dom(da);
        lemma_entry_map_dom(db);
        assert(entry_map_of(a)[a[0].0] == a[0].1);
        assert(entry_map_of(b)[b[0].0] == b[0].1);
        assert(a[0] == b[0]);
        // the tails hold the mapping with the head offset removed
        assert(entry_map_of(da) =~= entry_map_of(a).remove(a[0].0));
        assert(entry_map_of(db) =~= entry_map_of(b).remove(b[0].0));
        lemma_sorted_unique(da, db);
        assert(a.len() == b.len());
        assert forall|i: int| 0 <= i < a.len() implies a[i] == b[i] by {
            if i > 0 {
                assert(da[i - 1] == a[i]);
                assert(db[i - 1] == b[i]);
            }
        }
        assert(a =~= b);
    }
}

/// Inserting into the sorted buffer is exactly an update of the mapping
/// it holds.
pub proof fn lemma_sorted_insert_map(s: Seq<(int, Seq<u8>)>, k: int, v: Seq<u8>)
    requires
        entries_sorted(s),
    ensures
        entry_map_of(sorted_insert(s, k, v)) == entry_map_of(s).insert(k, v),
    decreases s.len(),
{
    if s.len() == 0 {
        let r = seq![(k, v)];
        assert(r.drop_first() =~= Seq::<(int, Seq<u8>)>::empty());
        assert(r[0] == (k, v));
        assert(entry_map_of(Seq::<(int, Seq<u8>)>::empty()) =~= Map::<int, Seq<u8>>::empty());
        assert(entry_map_of(r) =~= entry_map_of(s).insert(k, v));
    } else if s[0].0 < k {
        let d = s.drop_first();
        assert(forall|i: int| 0 <= i < d.len() ==> d[i] == s[i + 1]);
        assert(entries_sorted(d));
        lemma_sorted_insert_map(d, k, v);
        let r = seq![s[0]] + sorted_insert(d, k, v);
        assert(r.drop_first() =~= sorted_insert(d, k, v));
        assert(r[0] == s[0]);
        assert(entry_map_of(r) == entry_map_of(sorted_insert(d, k, v)).insert(s[0].0, s[0].1));
        assert((entry_map_of(d).insert(k, v)).insert(s[0].0, s[0].1) =~= (entry_map_of(d).insert(
            s[0].0,
            s[0].1,
        )).insert(k, v));
    } else if s[0].0 == k {
        let r = seq![(k, v)] + s.drop_first();
        assert(r.drop_first() =~= s.drop_first());
        assert(r[0] == (k, v));
        assert((entry_map_of(s.drop_first()).insert(k, s[0].1)).insert(k, v) =~= entry_map_of(
            s.drop_first(),
        ).insert(k, v));
    } else {
        let r = seq![(k, v)] + s;
        assert(r.drop_first() =~= s);
        assert(r[0] == (k, v));
    }
}

/// For every gap-free, non-overlapping set of chunks covering the whole
/// resource, merging yields the same bytes fed to the hash — and so the
/// same digest — as hashing the concatenation in offset order directly,
/// in whatever order the chunks were inserted: a sorted buffer holding a
/// given offset-to-chunk mapping is unique, and merging a full cover
/// drains exactly the concatenation.
pub proof fn lemma_cover_merge_digest(a: Seq<(int, Seq<u8>)>, b: Seq<(int, Seq<u8>)>, total: int)
    requires
        entries_sorted(a),
        entries_sorted(b),
        entry_map_of(a) == entry_map_of(b),
        chain_from(a, 0),
        chain_end(a, 0) == total,
    ensures
        b == a,
        merge_model(b, 0, total).drained == concat_entries(a),
        merge_model(b, 0, total).hashed == total,
        !merge_model(b, 0, total).overrun,
        sha256_of(merge_model(b, 0, total).drained) == sha256_of(concat_entries(a)),
{
    lemma_sorted_unique(a, b);
    lemma_chain_drains(a, 0, total);
}

/// What one full run of the merge algorithm leaves behind: the remaining
/// entries, the new watermark, the bytes drained into the hash in offset
/// order, and whether it stopped on an overrun.
pub struct MergeOut {
    pub entries: Seq<(int, Seq<u8>)>,
    pub hashed: int,
    pub drained: Seq<u8>,
    pub overrun: bool,
}

/// The merge algorithm over the model state: repeatedly inspect the entry
/// with the smallest offset; discard it when it lies behind the
/// watermark, drain it into the hash when it sits exactly at the
/// watermark and fits under the total size, stop with an overrun when it
/// would exceed the total, and stop quietly at a gap.
pub open spec fn merge_model(entries: Seq<(int, Seq<u8>)>, hashed: int, total: int) -> MergeOut
    decreases entries.len(),
{
    if entries.len() == 0 {
        MergeOut { entries, hashed, drained: Seq::empty(), overrun: false }
    } else if entries[0].0 < hashed {
        merge_model(entries.drop_first(), hashed, total)
    } else if entries[0].0 == hashed {
        if hashed + entries[0].1.len() > total {
            MergeOut { entries, hashed, drained: Seq::empty(), overrun: true }
        } else {
            let rec = merge_model(entries.drop_first(), hashed + entries[0].1.len(), total);
            MergeOut {
                entries: rec.entries,
                hashed: rec.hashed,
                drained: entries[0].1 + rec.drained,
                overrun: rec.overrun,
            }
        }
    } else {
        MergeOut { entries, hashed, drained: Seq::empty(), overrun: false }
    }
}

/// An entry lying wholly behind the watermark is discarded without
/// touching the watermark or the hash: merging with it is merging
/// without it.
pub proof fn lemma_stale_head_discarded(entries: Seq<(int, Seq<u8>)>, hashed: int, total: int)
    requires
        entries.len() > 0,
        entries[0].0 < hashed,
    ensures
        merge_model(entries, hashed, total) == merge_model(entries.drop_first(), hashed, total),
{
}

/// When every buffered entry lies behind the watermark, a merge discards
/// them all and changes nothing else.
pub proof fn lemma_all_stale_discarded(entries: Seq<(int, Seq<u8>)>, hashed: int, total: int)
    requires
        forall|i: int| 0 <= i < entries.len() ==> entries[i].0 < hashed,
    ensures
        merge_model(entries, hashed, total) == (MergeOut {
            entries: Seq::empty(),
            hashed,
            drained: Seq::empty(),
            overrun: false,
        }),
    decreases entries.len(),
{
    if entries.len() == 0 {
        assert(merge_model(entries, hashed, total).entries =~= Seq::<(int, Seq<u8>)>::empty());
    } else {
        assert(forall|i: int|
            0 <= i < entries.drop_first().len() ==> entries.drop_first()[i].0 == entries[i
                + 1].0);
        lemma_all_stale_discarded(entries.drop_first(), hashed, total);
    }
}

/// A gap ahead of the smallest offset halts merging without error and
/// without any change of state.
pub proof fn lemma_gap_halts(entries: Seq<(int, Seq<u8>)>, hashed: int, total: int)
    requires
        entries.len() > 0,
        entries[0].0 > hashed,
    ensures
        merge_model(entries, hashed, total) == (MergeOut {
            entries,
            hashed,
            drained: Seq::empty(),
            overrun: false,
        }),
{
}

/// A chunk at the watermark that would run past the total size stops the
/// merge with an overrun, and the watermark is not moved.
pub proof fn lemma_overrun_halts(entries: Seq<(int, Seq<u8>)>, hashed: int, total: int)
    requires
        entries.len() > 0,
        entries[0].0 == hashed,
        hashed + entries[0].1.len() > total,
    ensures
        merge_model(entries, hashed, total) == (MergeOut {
            entries,
            hashed,
            drained: Seq::empty(),
            overrun: true,
        }),
{
}

/// The entries form one contiguous run of non-empty chunks starting
/// exactly at `start`: each chunk begins where the one before it ended.
pub open spec fn chain_from(entries: Seq<(int, Seq<u8>)>, start: int) -> bool
    decreases entries.len(),
{
    if entries.len() == 0 {
        true
    } else {
        &&& entries[0].0 == start
        &&& entries[0].1.len() > 0
        &&& chain_from(entries.drop_first(), start + entries[0].1.len())
    }
}

/// The offset one past the last byte of a contiguous run.
pub open spec fn chain_end(entries: Seq<(int, Seq<u8>)>, start: int) -> int
    decreases entries.len(),
{
    if entries.len() == 0 {
        start
    } else {
        chain_end(entries.drop_first(), start + entries[0].1.len())
    }
}

/// All the entries' bytes, in offset order.
pub open spec fn concat_entries(entries: Seq<(int, Seq<u8>)>) -> Seq<u8>
    decreases entries.len(),
{
    if entries.len() == 0 {
        Seq::empty()
    } else {
        entries[0].1 + concat_entries(entries.drop_first())
    }
}

pub proof fn lemma_chain_end_ge(entries: Seq<(int, Seq<u8>)>, start: int)
    requires
        chain_from(entries, start),
    ensures
        chain_end(entries, start) >= start,
    decreases entries.len(),
{
    if entries.len() > 0 {
        lemma_chain_end_ge(entries.drop_first(), start + entries[0].1.len());
    }
}

/// A gap-free, non-overlapping run of chunks sitting exactly at the
/// watermark merges completely: every entry is drained, in offset order,
/// and the watermark advances to the end of the run. Merging a full cover
/// of the resource therefore hashes exactly the resource's bytes.
pub proof fn lemma_chain_drains(entries: Seq<(int, Seq<u8>)>, hashed: int, total: int)
    requires
        chain_from(entries, hashed),
        chain_end(entries, hashed) <= total,
    ensures
        merge_model(entries, hashed, total) == (MergeOut {
            entries: Seq::<(int, Seq<u8>)>::empty(),
            hashed: chain_end(entries, hashed),
            drained: concat_entries(entries),
            overrun: false,
        }),
    decreases entries.len(),
{
    if entries.len() == 0 {
        assert(merge_model(entries, hashed, total).entries =~= Seq::<(int, Seq<u8>)>::empty());
        assert(merge_model(entries, hashed, total).drained =~= concat_entries(entries));
    } else {
        let next = hashed + entries[0].1.len();
        lemma_chain_end_ge(entries.drop_first(), next);
        lemma_chain_drains(entries.drop_first(), next, total);
    }
}

/// After a merge that did not overrun, every entry still buffered lies
/// strictly past the watermark: entries behind it are removed as a side
/// effect of merging, never silently kept.
pub proof fn lemma_merge_leaves_no_stale(entries: Seq<(int, Seq<u8>)>, hashed: int, total: int)
    requires
        entries_sorted(entries),
    ensures
        ({
            let m = merge_model(entries, hashed, total);
            !m.overrun ==> forall|i: int| 0 <= i < m.entries.len() ==> #[trigger] m.entries[i].0
                > m.hashed
        }),
    decreases entries.len(),
{
    if entries.len() > 0 {
        let d = entries.drop_first();
        assert(forall|i: int| 0 <= i < d.len() ==> d[i] == entries[i + 1]);
        assert(entries_sorted(d));
        if entries[0].0 < hashed {
            lemma_merge_leaves_no_stale(d, hashed, total);
        } else if entries[0].0 == hashed {
            if hashed + entries[0].1.len() <= total {
                lemma_merge_leaves_no_stale(d, hashed + entries[0].1.len(), total);
            }
        } else {
            // a gap: the head is past the watermark and the rest sit
            // even further out
            let m = merge_model(entries, hashed, total);
            assert(forall|i: int| 1 <= i < entries.len() ==> entries[0].0 < #[trigger] entries[i].0);
        }
    }
}

/// Merging resumes correctly once a gap is filled: a halted merge left
/// the state untouched (`lemma_gap_halts`), and when a run of chunks `a`
/// exactly filling `[hashed, chain_end)` stands in front of whatever
/// entries `b` were already buffered, one merge over the whole buffer
/// drains the run and then carries on over `b` exactly as a merge of the
/// complete buffer from the start would — whatever unrelated later
/// offsets `b` holds.
pub proof fn lemma_merge_through_chain(
    a: Seq<(int, Seq<u8>)>,
    b: Seq<(int, Seq<u8>)>,
    hashed: int,
    total: int,
)
    requires
        chain_from(a, hashed),
        chain_end(a, hashed) <= total,
    ensures
        ({
            let mb = merge_model(b, chain_end(a, hashed), total);
            merge_model(a + b, hashed, total) == (MergeOut {
                entries: mb.entries,
                hashed: mb.hashed,
                drained: concat_entries(a) + mb.drained,
                overrun: mb.overrun,
            })
        }),
    decreases a.len(),
{
    if a.len() == 0 {
        assert(a + b =~= b);
        let mb = merge_model(b, hashed, total);
        assert(concat_entries(a) + mb.drained =~= mb.drained);
    } else {
        let next = hashed + a[0].1.len();
        lemma_chain_end_ge(a.drop_first(), next);
        assert((a + b)[0] == a[0]);
        assert((a + b).drop_first() =~= a.drop_first() + b);
        lemma_merge_through_chain(a.drop_first(), b, next, total);
        let mb = merge_model(b, chain_end(a, hashed), total);
        assert(a[0].1 + (concat_entries(a.drop_first()) + mb.drained) =~= concat_entries(a)
            + mb.drained);
    }
}

/// The shared reassembly state: the ordered offset-to-chunk buffer, the
/// streaming hash, the watermark of bytes already hashed, and the
/// declared total size, kept together so that they are only ever observed
/// consistently.
pub struct Reassembler {
    entries: Vec<(usize, Vec<u8>)>,
    hasher: HashState,
    bytes_hashed: usize,
    total_size: usize,
}

impl Reassembler {
    /// The buffered entries, smallest offset first.
    pub closed spec fn entry_seq(self) -> Seq<(int, Seq<u8>)> {
        entry_views(self.entries@)
    }

    /// The buffer as a mapping from offset to chunk bytes.
    pub open spec fn entry_map(self) -> Map<int, Seq<u8>> {
        entry_map_of(self.entry_seq())
    }

    /// The watermark: the offset just past the last byte fed to the hash.
    pub closed spec fn hashed(self) -> int {
        self.bytes_hashed as int
    }

    /// The declared size of the resource.
    pub closed spec fn total(self) -> int {
        self.total_size as int
    }

    /// Every byte fed to the hash so far, in order.
    pub closed spec fn fed(self) -> Seq<u8> {
        absorbed(self.hasher)
    }

    /// The buffer is sorted with unique offsets, the watermark never
    /// passes the total size, and the hash has absorbed exactly the
    /// watermark's worth of bytes.
    pub open spec fn wf(self) -> bool {
        &&& entries_sorted(self.entry_seq())
        &&& self.hashed() <= self.total()
        &&& self.fed().len() == self.hashed()
    }

    /// A fresh buffer for a resource of `total_size` bytes.
    pub fn new(total_size: usize) -> (r: Reassembler)
        ensures
            r.wf(),
            r.entry_seq() == Seq::<(int, Seq<u8>)>::empty(),
            r.hashed() == 0,
            r.total() == total_size,
            r.fed() == Seq::<u8>::empty(),
    {
        let r = Reassembler {
            entries: Vec::new(),
            hasher: HashState::new(),
            bytes_hashed: 0,
            total_size,
        };
        proof {
            assert(r.entry_seq() =~= Seq::<(int, Seq<u8>)>::empty());
        }
        r
    }

    pub fn total_size(&self) -> (t: usize)
        ensures
            t as int == self.total(),
    {
        self.total_size
    }

    pub fn bytes_hashed(&self) -> (w: usize)
        ensures
            w as int == self.hashed(),
    {
        self.bytes_hashed
    }

    /// How many chunks wait in the buffer.
    pub fn pending_chunks(&self) -> (n: usize)
        ensures
            n == self.entry_seq().len(),
    {
        self.entries.len()
    }

    /// Puts `chunk` into the buffer at `offset`, replacing any chunk
    /// already recorded there. The watermark, the hash and the total are
    /// untouched: inserting never hashes.
    #[verifier::loop_isolation(false)]
    pub fn insert(&mut self, offset: usize, chunk: Vec<u8>)
        requires
            old(self).wf(),
        ensures
            final(self).wf(),
            final(self).entry_seq() == sorted_insert(old(self).entry_seq(), offset as int, chunk@),
            final(self).entry_map() == old(self).entry_map().insert(offset as int, chunk@),
            final(self).hashed() == old(self).hashed(),
            final(self).fed() == old(self).fed(),
            final(self).total() == old(self).total(),
    {
        let ghost s = self.entry_seq();
        let mut i: usize = 0;
        while i < self.entries.len() && self.entries[i].0 < offset
            invariant
                i <= self.entries.len(),
                forall|j: int| 0 <= j < i ==> self.entry_seq()[j].0 < offset,
            decreases self.entries.len() - i,
        {
            i = i + 1;
        }
        proof {
            lemma_sorted_insert_shape(s, offset as int, chunk@, i as int);
        }
        if i < self.entries.len() && self.entries[i].0 == offset {
            self.entries.set(i, (offset, chunk));
            proof {
                assert(self.entry_seq() =~= s.update(i as int, (offset as int, chunk@)));
                assert(self.entry_seq() =~= sorted_insert(s, offset as int, chunk@));
            }
        } else {
            self.entries.insert(i, (offset, chunk));
            proof {
                assert(self.entry_seq() =~= s.take(i as int) + seq![(offset as int, chunk@)]
                    + s.skip(i as int));
                assert(self.entry_seq() =~= sorted_insert(s, offset as int, chunk@));
            }
        }
        proof {
            lemma_sorted_insert_sorted(s, offset as int, chunk@);
            lemma_sorted_insert_map(s, offset as int, chunk@);
        }
    }

    /// Runs the merge algorithm (`merge_model`) over the buffer: drains
    /// every contiguous, correctly-offset chunk into the hash in offset
    /// order, discards chunks behind the watermark, halts quietly at the
    /// first gap, and fails with `Overrun`, watermark unmoved, on a chunk
    /// that would run past the total size.
    #[verifier::loop_isolation(false)]
    pub fn process_chunks(&mut self) -> (r: Result<(), FetchError>)
        requires
            old(self).wf(),
        ensures
            final(self).wf(),
            final(self).total() == old(self).total(),
            ({
                let m = merge_model(old(self).entry_seq(), old(self).hashed(), old(self).total());
                &&& final(self).entry_seq() == m.entries
                &&& final(self).hashed() == m.hashed
                &&& final(self).fed() == old(self).fed() + m.drained
                &&& (r is Ok <==> !m.overrun)
                &&& (r is Err ==> r == Err::<(), FetchError>(FetchError::Overrun))
            }),
            r is Ok ==> forall|i: int|
                0 <= i < final(self).entry_seq().len()
                    ==> #[trigger] final(self).entry_seq()[i].0 > final(self).hashed(),
    {
        proof {
            lemma_merge_leaves_no_stale(
                old(self).entry_seq(),
                old(self).hashed(),
                old(self).total(),
            );
        }
        let ghost m = merge_model(old(self).entry_seq(), old(self).hashed(), old(self).total());
        loop
            invariant
                self.wf(),
                self.total() == old(self).total(),
                ({
                    let mc = merge_model(self.entry_seq(), self.hashed(), self.total());
                    &&& mc.entries == m.entries
                    &&& mc.hashed == m.hashed
                    &&& mc.overrun == m.overrun
                    &&& self.fed() + mc.drained == old(self).fed() + m.drained
                }),
            decreases self.entry_seq().len(),
        {
            if self.entries.len() == 0 {
                proof {
                    assert(self.entry_seq().len() == 0);
                }
                break;
            }
            let start = self.entries[0].0;
            let clen = self.entries[0].1.len();
            proof {
                assert(self.entry_seq()[0] == (start as int, self.entries@[0].1@));
            }
            if start < self.bytes_hashed {
                let ghost before = self.entry_seq();
                // a duplicate of already-hashed data: discarded unexamined
                let _stale = self.entries.remove(0);
                proof {
                    assert(self.entry_seq() =~= before.drop_first());
                }
            } else if start == self.bytes_hashed {
                if clen > self.total_size - self.bytes_hashed {
                    proof {
                        let mc = merge_model(self.entry_seq(), self.hashed(), self.total());
                        assert(mc.overrun);
                        assert(mc.drained =~= Seq::<u8>::empty());
                        assert(self.fed() + mc.drained =~= self.fed());
                    }
                    return Err(FetchError::Overrun);
                }
                let ghost before = self.entry_seq();
                let entry = self.entries.remove(0);
                self.hasher.update(&entry.1);
                self.bytes_hashed = self.bytes_hashed + entry.1.len();
                proof {
                    assert(self.entry_seq() =~= before.drop_first());
                }
            } else {
                proof {
                    let mc = merge_model(self.entry_seq(), self.hashed(), self.total());
                    assert(mc.drained =~= Seq::<u8>::empty());
                    assert(self.fed() + mc.drained =~= self.fed());
                }
                break;
            }
        }
        // Defensive double-check beyond the per-entry bound.
        if self.bytes_hashed > self.total_size {
            return Err(FetchError::Overrun);
        }
        proof {
            let mc = merge_model(self.entry_seq(), self.hashed(), self.total());
            assert(mc.drained =~= Seq::<u8>::empty());
            assert(self.fed() + mc.drained =~= self.fed());
            assert(final(self).fed() =~= old(self).fed() + m.drained);
        }
        Ok(())
    }

    /// Puts the outcome of one fetch into the buffer at `cursor` and says
    /// where the cursor moves next: a non-empty chunk is stored as is and
    /// the cursor advances past it; an empty result or a failed fetch is
    /// recorded as a one-byte placeholder and the cursor advances a
    /// single byte, so that a fault never stalls or aborts the run.
    pub fn deposit(&mut self, cursor: usize, fetched: Result<Vec<u8>, FetchError>) -> (nc: usize)
        requires
            old(self).wf(),
            cursor < usize::MAX,
        ensures
            final(self).wf(),
            final(self).hashed() == old(self).hashed(),
            final(self).fed() == old(self).fed(),
            final(self).total() == old(self).total(),
            match fetched {
                Ok(chunk) => {
                    if chunk@.len() > 0 && chunk@.len() <= usize::MAX - cursor {
                        &&& final(self).entry_seq() == sorted_insert(
                            old(self).entry_seq(),
                            cursor as int,
                            chunk@,
                        )
                        &&& nc == cursor + chunk@.len()
                    } else if chunk@.len() == 0 {
                        &&& final(self).entry_seq() == sorted_insert(
                            old(self).entry_seq(),
                            cursor as int,
                            seq![0u8],
                        )
                        &&& nc == cursor + 1
                    } else {
                        // a chunk so large the cursor cannot pass it: it is
                        // still stored, and the cursor stops at the ceiling
                        &&& final(self).entry_seq() == sorted_insert(
                            old(self).entry_seq(),
                            cursor as int,
                            chunk@,
                        )
                        &&& nc == usize::MAX
                    }
                },
                Err(e) => {
                    &&& final(self).entry_seq() == sorted_insert(
                        old(self).entry_seq(),
                        cursor as int,
                        seq![0u8],
                    )
                    &&& nc == cursor + 1
                },
            },
    {
        match fetched {
            Ok(chunk) => {
                if chunk.len() == 0 {
                    let mut placeholder: Vec<u8> = Vec::new();
                    placeholder.push(0);
                    proof {
                        assert(placeholder@ =~= seq![0u8]);
                    }
                    self.insert(cursor, placeholder);
                    cursor + 1
                } else {
                    let len = chunk.len();
                    self.insert(cursor, chunk);
                    if len <= usize::MAX - cursor {
                        cursor + len
                    } else {
                        usize::MAX
                    }
                }
            },
            Err(e) => {
                let mut placeholder: Vec<u8> = Vec::new();
                placeholder.push(0);
                proof {
                    assert(placeholder@ =~= seq![0u8]);
                }
                self.insert(cursor, placeholder);
                cursor + 1
            },
        }
    }

    /// The range the fallback completer must still repair: from the
    /// watermark through the last byte of the resource, or nothing once
    /// the watermark has reached the total size.
    pub fn next_missing_range(&self) -> (r: Option<(usize, usize)>)
        requires
            self.wf(),
        ensures
            r is None <==> self.hashed() == self.total(),
            r matches Some(p) ==> p.0 as int == self.hashed() && p.1 as int == self.total() - 1
                && self.hashed() < self.total(),
    {
        if self.bytes_hashed < self.total_size {
            Some((self.bytes_hashed, self.total_size - 1))
        } else {
            None
        }
    }

    /// Consumes the buffer and emits the digest of everything fed to the
    /// hash, in offset order.
    pub fn finalize(self) -> (d: Vec<u8>)
        ensures
            d@ == sha256_of(self.fed()),
            d@.len() == 32,
    {
        self.hasher.finalize()
    }
}

/// Where `sorted_insert` lands when scanning finds `i`: the first
/// position whose offset is not below `k`.
pub proof fn lemma_sorted_insert_shape(s: Seq<(int, Seq<u8>)>, k: int, v: Seq<u8>, i: int)
    requires
        0 <= i <= s.len(),
        forall|j: int| 0 <= j < i ==> s[j].0 < k,
        i < s.len() ==> s[i].0 >= k,
    ensures
        i < s.len() && s[i].0 == k ==> sorted_insert(s, k, v) == s.update(i, (k, v)),
        !(i < s.len() && s[i].0 == k) ==> sorted_insert(s, k, v) == s.take(i) + seq![(k, v)]
            + s.skip(i),
    decreases s.len(),
{
    if s.len() == 0 {
        assert(s.take(0) + seq![(k, v)] + s.skip(0) =~= seq![(k, v)]);
    } else if s[0].0 < k {
        let d = s.drop_first();
        lemma_sorted_insert_shape(d, k, v, i - 1);
        if i < s.len() && s[i].0 == k {
            assert(seq![s[0]] + d.update(i - 1, (k, v)) =~= s.update(i, (k, v)));
        } else {
            assert(seq![s[0]] + (d.take(i - 1) + seq![(k, v)] + d.skip(i - 1)) =~= s.take(i)
                + seq![(k, v)] + s.skip(i));
        }
    } else if s[0].0 == k {
        assert(i == 0);
        assert(seq![(k, v)] + s.drop_first() =~= s.update(0, (k, v)));
    } else {
        assert(i == 0);
        assert(seq![(k, v)] + s =~= s.take(0) + seq![(k, v)] + s.skip(0));
    }
}

/// Inserting keeps the buffer sorted with unique offsets.
pub proof fn lemma_sorted_insert_sorted(s: Seq<(int, Seq<u8>)>, k: int, v: Seq<u8>)
    requires
        entries_sorted(s),
    ensures
        entries_sorted(sorted_insert(s, k, v)),
    decreases s.len(),
{
    if s.len() == 0 {
    } else if s[0].0 < k {
        let d = s.drop_first();
        assert(entries_sorted(d)) by {
            assert(forall|i: int| 0 <= i < d.len() ==> d[i] == s[i + 1]);
        }
        lemma_sorted_insert_sorted(d, k, v);
        let r = seq![s[0]] + sorted_insert(d, k, v);
        assert(entries_sorted(r)) by {
            lemma_sorted_insert_keys(d, k, v);
            assert(forall|i: int| 1 <= i < r.len() ==> r[i] == sorted_insert(d, k, v)[i - 1]);
        }
    } else if s[0].0 == k {
        let r = seq![(k, v)] + s.drop_first();
        assert(entries_sorted(r)) by {
            assert(forall|i: int| 1 <= i < r.len() ==> r[i] == s[i]);
        }
    } else {
        let r = seq![(k, v)] + s;
        assert(entries_sorted(r)) by {
            assert(forall|i: int| 1 <= i < r.len() ==> r[i] == s[i - 1]);
        }
    }
}

/// Every offset in the inserted buffer is an old offset or `k`.
pub proof fn lemma_sorted_insert_keys(s: Seq<(int, Seq<u8>)>, k: int, v: Seq<u8>)
    ensures
        forall|i: int| 0 <= i < sorted_insert(s, k, v).len() ==> (sorted_insert(s, k, v)[i].0 == k
            || exists|j: int| 0 <= j < s.len() && s[j].0 == #[trigger] sorted_insert(s, k, v)[i].0),
    decreases s.len(),
{
    if s.len() == 0 {
    } else if s[0].0 < k {
        let d = s.drop_first();
        lemma_sorted_insert_keys(d, k, v);
        let r = seq![s[0]] + sorted_insert(d, k, v);
        assert forall|i: int| 0 <= i < r.len() implies (r[i].0 == k || exists|j: int|
            0 <= j < s.len() && s[j].0 == #[trigger] r[i].0) by {
            if i == 0 {
                assert(s[0].0 == r[0].0);
            } else {
                assert(r[i] == sorted_insert(d, k, v)[i - 1]);
                if r[i].0 != k {
                    let j = choose|j: int| 0 <= j < d.len() && d[j].0 == sorted_insert(
                        d,
                        k,
                        v,
                    )[i - 1].0;
                    assert(s[j + 1].0 == r[i].0);
                }
            }
        }
    } else if s[0].0 == k {
        let r = seq![(k, v)] + s.drop_first();
        assert forall|i: int| 0 <= i < r.len() implies (r[i].0 == k || exists|j: int|
            0 <= j < s.len() && s[j].0 == #[trigger] r[i].0) by {
            if i > 0 {
                assert(s[i].0 == r[i].0);
            }
        }
    } else {
        let r = seq![(k, v)] + s;
        assert forall|i: int| 0 <= i < r.len() implies (r[i].0 == k || exists|j: int|
            0 <= j < s.len() && s[j].0 == #[trigger] r[i].0) by {
            if i > 0 {
                assert(s[i - 1].0 == r[i].0);
            }
        }
    }
}

} // verus!
