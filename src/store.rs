//! The sequence store: query sequences by identifier, in the order they came.
use vstd::prelude::*;
use vstd::utf8::encode_utf8;
use crate::fields::{append_range, bytes_equal};

verus! {

/// An assembled sequence: its identifier and its bases.
pub struct Contig {
    pub id: String,
    pub seq: Vec<u8>,
}

/// The identifier of a contig as bytes, with its bases.
pub open spec fn contig_entry(c: Contig) -> (Seq<u8>, Seq<u8>) {
    (encode_utf8(c.id@), c.seq@)
}

/// Whether no identifier occurs twice.
pub open spec fn ids_unique(v: Seq<(Seq<u8>, Seq<u8>)>) -> bool {
    forall|i: int, j: int| 0 <= i < v.len() && 0 <= j < v.len() && i != j ==> v[i].0 != v[j].0
}

/// Whether some entry has identifier `id`.
pub open spec fn has_id(v: Seq<(Seq<u8>, Seq<u8>)>, id: Seq<u8>) -> bool {
    exists|i: int| 0 <= i < v.len() && #[trigger] v[i].0 == id
}

/// The length of the sequence with identifier `id`, if there is one.
pub open spec fn length_of(v: Seq<(Seq<u8>, Seq<u8>)>, id: Seq<u8>) -> Option<nat> {
    if has_id(v, id) {
        let i = choose|i: int| 0 <= i < v.len() && #[trigger] v[i].0 == id;
        Some(v[i].1.len())
    } else {
        None
    }
}

/// The store after adding `e`: an entry with the same identifier has its bases
/// replaced where it stands; otherwise `e` goes last.
pub open spec fn store_insert(v: Seq<(Seq<u8>, Seq<u8>)>, e: (Seq<u8>, Seq<u8>)) -> Seq<
    (Seq<u8>, Seq<u8>),
> {
    if has_id(v, e.0) {
        let i = choose|i: int| 0 <= i < v.len() && #[trigger] v[i].0 == e.0;
        v.update(i, e)
    } else {
        v.push(e)
    }
}

/// The store built from contigs added in order.
pub open spec fn store_of(cs: Seq<(Seq<u8>, Seq<u8>)>) -> Seq<(Seq<u8>, Seq<u8>)>
    decreases cs.len(),
{
    if cs.len() == 0 {
        Seq::empty()
    } else {
        store_insert(store_of(cs.drop_last()), cs.last())
    }
}

/// The query text handed to the aligner: for each entry in order, a line `>`
/// and its identifier, then a line of its bases.
pub open spec fn query_text(v: Seq<(Seq<u8>, Seq<u8>)>) -> Seq<u8>
    decreases v.len(),
{
    if v.len() == 0 {
        Seq::empty()
    } else {
        query_text(v.drop_last()) + seq![0x3eu8] + v.last().0 + seq![0x0au8] + v.last().1 + seq![
            0x0au8,
        ]
    }
}

/// Sequences by identifier, kept in the order of their first insertion.
pub struct SequenceStore {
    records: Vec<Contig>,
}

impl View for SequenceStore {
    type V = Seq<(Seq<u8>, Seq<u8>)>;

    closed spec fn view(&self) -> Seq<(Seq<u8>, Seq<u8>)> {
        self.records@.map_values(|c: Contig| contig_entry(c))
    }
}

impl SequenceStore {
    pub open spec fn well_formed(&self) -> bool {
        ids_unique(self@)
    }

    pub fn new() -> (r: SequenceStore)
        ensures
            r@ == Seq::<(Seq<u8>, Seq<u8>)>::empty(),
            r.well_formed(),
    {
        let r = SequenceStore { records: Vec::new() };
        assert(r@ =~= Seq::<(Seq<u8>, Seq<u8>)>::empty());
        r
    }

    pub fn len(&self) -> (r: usize)
        ensures
            r == self@.len(),
    {
        self.records.len()
    }

    /// Where the entry with identifier `id` stands, if there is one.
    fn position(&self, id: &[u8]) -> (r: Option<usize>)
        requires
            self.well_formed(),
        ensures
            match r {
                Some(i) => i < self@.len() && self@[i as int].0 == id@,
                None => !has_id(self@, id@),
            },
    {
        let mut i: usize = 0;
        while i < self.records.len()
            invariant
                i <= self.records.len(),
                forall|k: int| 0 <= k < i ==> self@[k].0 != id@,
            decreases self.records.len() - i,
        {
            let cid = self.records[i].id.as_str().as_bytes();
            assert(self@[i as int] == contig_entry(self.records@[i as int]));
            if bytes_equal(cid, id) {
                return Some(i);
            }
            i = i + 1;
        }
        None
    }

    /// Adds a contig; one with the same identifier has its bases replaced.
    pub fn insert(&mut self, c: Contig)
        requires
            old(self).well_formed(),
        ensures
            final(self).well_formed(),
            final(self)@ == store_insert(old(self)@, contig_entry(c)),
    {
        let ghost e = contig_entry(c);
        match self.position(c.id.as_str().as_bytes()) {
            Some(i) => {
                proof {
                    let j = choose|j: int| 0 <= j < self@.len() && #[trigger] self@[j].0 == e.0;
                    assert(j == i);
                }
                self.records.set(i, c);
                assert(self@ =~= store_insert(old(self)@, e));
            },
            None => {
                self.records.push(c);
                assert(self@ =~= store_insert(old(self)@, e));
            },
        }
    }

    /// The store of the given contigs, added in order.
    pub fn from_contigs(contigs: Vec<Contig>) -> (r: SequenceStore)
        ensures
            r.well_formed(),
            r@ == store_of(contigs@.map_values(|c: Contig| contig_entry(c))),
    {
        let ghost entries = contigs@.map_values(|c: Contig| contig_entry(c));
        let mut store = SequenceStore::new();
        let mut rest = contigs;
        let mut n: usize = 0;
        assert(entries.len() == rest.len());
        assert(entries.take(0) =~= Seq::<(Seq<u8>, Seq<u8>)>::empty());
        while rest.len() > 0
            invariant
                store.well_formed(),
                n + rest@.len() == entries.len(),
                entries.len() <= usize::MAX,
                store@ == store_of(entries.take(n as int)),
                forall|k: int|
                    0 <= k < rest@.len() ==> contig_entry(#[trigger] rest@[k]) == entries[n + k],
            decreases rest.len(),
        {
            let ghost prev = rest@;
            let c = rest.remove(0);
            assert(contig_entry(c) == entries[n as int]);
            assert(entries.take(n + 1).drop_last() =~= entries.take(n as int));
            store.insert(c);
            n = n + 1;
            assert forall|k: int| 0 <= k < rest@.len() implies contig_entry(#[trigger] rest@[k])
                == entries[n + k] by {
                assert(rest@[k] == prev[k + 1]);
                assert(contig_entry(prev[k + 1]) == entries[n - 1 + k + 1]);
            }
        }
        assert(entries.take(entries.len() as int) =~= entries);
        store
    }

    /// The length of the sequence with identifier `id`, if there is one.
    pub fn query_length(&self, id: &[u8]) -> (r: Option<usize>)
        requires
            self.well_formed(),
        ensures
            r matches Some(n) ==> length_of(self@, id@) == Some(n as nat),
            r is None ==> length_of(self@, id@) is None,
    {
        match self.position(id) {
            Some(i) => {
                proof {
                    let j = choose|j: int| 0 <= j < self@.len() && #[trigger] self@[j].0 == id@;
                    assert(j == i);
                }
                Some(self.records[i].seq.len())
            },
            None => None,
        }
    }

    /// The query text for the aligner, entries in store order.
    pub fn query_text(&self) -> (r: Vec<u8>)
        ensures
            r@ == query_text(self@),
    {
        let mut out: Vec<u8> = Vec::new();
        let mut i: usize = 0;
        assert(self@.take(0) =~= Seq::<(Seq<u8>, Seq<u8>)>::empty());
        while i < self.records.len()
            invariant
                i <= self.records.len(),
                out@ == query_text(self@.take(i as int)),
            decreases self.records.len() - i,
        {
            let c = &self.records[i];
            let id = c.id.as_str().as_bytes();
            assert(self@[i as int] == contig_entry(self.records@[i as int]));
            assert(self@.take(i + 1).drop_last() =~= self@.take(i as int));
            out.push(0x3e);
            append_range(&mut out, id, 0, id.len());
            out.push(0x0a);
            append_range(&mut out, c.seq.as_slice(), 0, c.seq.len());
            out.push(0x0a);
            assert(id@.subrange(0, id@.len() as int) =~= id@);
            assert(c.seq@.subrange(0, c.seq@.len() as int) =~= c.seq@);
            assert(out@ =~= query_text(self@.take(i + 1)));
            i = i + 1;
        }
        assert(self@.take(self.records.len() as int) =~= self@);
        out
    }
}

} // verus!
