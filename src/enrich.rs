//! Enriched hits: a hit with its query's length and what is derived from it.
use vstd::prelude::*;
use crate::fields::copy_bytes;
use crate::hit::{hit_views, AlignmentHit, HitModel};
use crate::metrics::{
    coverage_percent, coverage_sketch, coverage_sketch_of, coverage_text, gene_name, gene_name_of,
};
use crate::store::{length_of, SequenceStore};

verus! {

/// A hit whose query is in the store, with its derived metrics.
pub struct BlastHit {
    pub hit: AlignmentHit,
    pub query_length: usize,
    pub database_name: Vec<u8>,
    /// The coverage percent, with one digit after the point.
    pub coverage: Vec<u8>,
    pub coverage_sketch: Vec<u8>,
    pub gene_name: Vec<u8>,
}

/// What a `BlastHit` holds.
pub ghost struct EnrichedModel {
    pub hit: HitModel,
    pub query_length: usize,
    pub database_name: Seq<u8>,
    pub coverage: Seq<u8>,
    pub coverage_sketch: Seq<u8>,
    pub gene_name: Seq<u8>,
}

impl View for BlastHit {
    type V = EnrichedModel;

    open spec fn view(&self) -> EnrichedModel {
        EnrichedModel {
            hit: self.hit@,
            query_length: self.query_length,
            database_name: self.database_name@,
            coverage: self.coverage@,
            coverage_sketch: self.coverage_sketch@,
            gene_name: self.gene_name@,
        }
    }
}

/// The enriched hit of `h`, whose query has `query_length` bases.
pub open spec fn enriched(h: HitModel, query_length: usize, database: Seq<u8>) -> EnrichedModel {
    EnrichedModel {
        hit: h,
        query_length,
        database_name: database,
        coverage: coverage_text(h.alignment_length as nat, query_length as nat),
        coverage_sketch: coverage_sketch(
            query_length as nat,
            h.query_start as nat,
            h.query_end as nat,
        ),
        gene_name: gene_name(h.subject_id),
    }
}

/// The enriched hits, in hit order; a hit whose query is not in the store is dropped.
pub open spec fn enrich_all(
    hits: Seq<HitModel>,
    store: Seq<(Seq<u8>, Seq<u8>)>,
    database: Seq<u8>,
) -> Seq<EnrichedModel>
    decreases hits.len(),
{
    if hits.len() == 0 {
        Seq::empty()
    } else {
        let prev = enrich_all(hits.drop_last(), store, database);
        match length_of(store, hits.last().query_id) {
            Some(n) => prev.push(enriched(hits.last(), n as usize, database)),
            None => prev,
        }
    }
}

pub open spec fn enriched_views(v: Seq<BlastHit>) -> Seq<EnrichedModel> {
    v.map_values(|h: BlastHit| h@)
}

/// Enriches one hit, or `None` when its query is not in the store.
pub fn enrich_hit(hit: &AlignmentHit, store: &SequenceStore, database: &[u8]) -> (r: Option<
    BlastHit,
>)
    requires
        store.well_formed(),
    ensures
        match length_of(store@, hit@.query_id) {
            Some(n) => r matches Some(e) && e@ == enriched(hit@, n as usize, database@)
                && e.hit.well_formed() == hit.well_formed(),
            None => r is None,
        },
{
    match store.query_length(hit.query_id.as_slice()) {
        None => None,
        Some(n) => {
            let e = BlastHit {
                hit: hit.copy(),
                query_length: n,
                database_name: copy_bytes(database),
                coverage: coverage_percent(hit.alignment_length, n),
                coverage_sketch: coverage_sketch_of(n, hit.query_start, hit.query_end),
                gene_name: gene_name_of(hit.subject_id.as_slice()),
            };
            Some(e)
        },
    }
}

/// Enriches the hits in order, dropping those whose query is not in the store.
pub fn enrich_hits(hits: &Vec<AlignmentHit>, store: &SequenceStore, database: &[u8]) -> (r: Vec<
    BlastHit,
>)
    requires
        store.well_formed(),
        forall|i: int| 0 <= i < hits@.len() ==> (#[trigger] hits@[i]).well_formed(),
    ensures
        enriched_views(r@) == enrich_all(hit_views(hits@), store@, database@),
        forall|i: int| 0 <= i < r@.len() ==> (#[trigger] r@[i]).hit.well_formed(),
{
    let mut out: Vec<BlastHit> = Vec::new();
    let mut i: usize = 0;
    assert(hit_views(hits@).take(0) =~= Seq::<HitModel>::empty());
    assert(enriched_views(out@) =~= Seq::<EnrichedModel>::empty());
    while i < hits.len()
        invariant
            i <= hits.len(),
            store.well_formed(),
            forall|k: int| 0 <= k < hits@.len() ==> (#[trigger] hits@[k]).well_formed(),
            enriched_views(out@) == enrich_all(hit_views(hits@).take(i as int), store@, database@),
            forall|k: int| 0 <= k < out@.len() ==> (#[trigger] out@[k]).hit.well_formed(),
        decreases hits.len() - i,
    {
        let ghost prev = out@;
        assert(hit_views(hits@).take(i + 1).drop_last() =~= hit_views(hits@).take(i as int));
        assert(hit_views(hits@).take(i + 1).last() == hits@[i as int]@);
        assert(hits@[i as int].well_formed());
        match enrich_hit(&hits[i], store, database) {
            Some(e) => {
                out.push(e);
                assert(enriched_views(out@) =~= enriched_views(prev).push(e@));
            },
            None => {},
        }
        i = i + 1;
    }
    assert(hit_views(hits@).take(hits.len() as int) =~= hit_views(hits@));
    out
}

} // verus!
