//! The canonical tab-separated report: a header line, then one row per hit.
use vstd::prelude::*;
use crate::decimal::one_decimal_text;
use crate::digits::{nat_text, u128_text};
use crate::enrich::{enrich_all, enrich_hits, enriched_views, BlastHit, EnrichedModel};
use crate::fields::append_range;
use crate::hit::{hits_outcome, parse_hits, MalformedHit};
use crate::store::SequenceStore;
use crate::fields::views;

verus! {

/// The header line of the report.
pub open spec fn report_header() -> Seq<u8> {
    seq![0x23u8, 0x46u8, 0x49u8, 0x4cu8, 0x45u8, 0x09u8, 0x53u8, 0x45u8, 0x51u8, 0x55u8, 0x45u8, 0x4eu8, 0x43u8, 0x45u8, 0x09u8, 0x53u8, 0x54u8, 0x41u8, 0x52u8, 0x54u8, 0x09u8, 0x45u8, 0x4eu8, 0x44u8, 0x09u8, 0x47u8, 0x45u8, 0x4eu8, 0x45u8, 0x09u8, 0x25u8, 0x43u8, 0x4fu8, 0x56u8, 0x45u8, 0x52u8, 0x41u8, 0x47u8, 0x45u8, 0x09u8, 0x43u8, 0x4fu8, 0x56u8, 0x45u8, 0x52u8, 0x41u8, 0x47u8, 0x45u8, 0x5fu8, 0x4du8, 0x41u8, 0x50u8, 0x09u8, 0x25u8, 0x49u8, 0x44u8, 0x45u8, 0x4eu8, 0x54u8, 0x49u8, 0x54u8, 0x59u8, 0x09u8, 0x44u8, 0x42u8, 0x0au8]
}

/// One row: input file, query, start, end, gene, coverage, sketch, identity,
/// database, separated by tabs and ended by a newline.
pub open spec fn row_text(file: Seq<u8>, e: EnrichedModel) -> Seq<u8> {
    file + seq![0x09u8] + e.hit.query_id + seq![0x09u8] + nat_text(e.hit.query_start as nat) + seq![
        0x09u8,
    ] + nat_text(e.hit.query_end as nat) + seq![0x09u8] + e.gene_name + seq![0x09u8] + e.coverage
        + seq![0x09u8] + e.coverage_sketch + seq![0x09u8] + one_decimal_text(
        e.hit.percent_identity,
    ) + seq![0x09u8] + e.database_name + seq![0x0au8]
}

/// The rows of the hits, in order.
pub open spec fn rows_text(file: Seq<u8>, es: Seq<EnrichedModel>) -> Seq<u8>
    decreases es.len(),
{
    if es.len() == 0 {
        Seq::empty()
    } else {
        rows_text(file, es.drop_last()) + row_text(file, es.last())
    }
}

/// The whole report.
pub open spec fn report_text(file: Seq<u8>, es: Seq<EnrichedModel>) -> Seq<u8> {
    report_header() + rows_text(file, es)
}

/// What a run yields from the store, the aligner's output lines, the database
/// name and the input file name: the report, or the first line with a bad number.
pub open spec fn run_outcome(
    store: Seq<(Seq<u8>, Seq<u8>)>,
    lines: Seq<Seq<u8>>,
    database: Seq<u8>,
    file: Seq<u8>,
) -> Result<Seq<u8>, Seq<u8>> {
    match hits_outcome(lines) {
        Ok(hits) => Ok(report_text(file, enrich_all(hits, store, database))),
        Err(line) => Err(line),
    }
}

fn push_tab(out: &mut Vec<u8>, field: &[u8])
    ensures
        final(out)@ == old(out)@ + field@ + seq![0x09u8],
{
    append_range(out, field, 0, field.len());
    out.push(0x09);
    assert(field@.subrange(0, field@.len() as int) =~= field@);
    assert(final(out)@ =~= old(out)@ + field@ + seq![0x09u8]);
}

/// Appends the row of one hit.
fn push_row(out: &mut Vec<u8>, file: &[u8], h: &BlastHit)
    requires
        h.hit.well_formed(),
    ensures
        final(out)@ == old(out)@ + row_text(file@, h@),
{
    push_tab(out, file);
    push_tab(out, h.hit.query_id.as_slice());
    let start = u128_text(h.hit.query_start as u128);
    push_tab(out, start.as_slice());
    let end = u128_text(h.hit.query_end as u128);
    push_tab(out, end.as_slice());
    push_tab(out, h.gene_name.as_slice());
    push_tab(out, h.coverage.as_slice());
    push_tab(out, h.coverage_sketch.as_slice());
    let identity = h.hit.percent_identity.one_decimal();
    push_tab(out, identity.as_slice());
    append_range(out, h.database_name.as_slice(), 0, h.database_name.len());
    out.push(0x0a);
    assert(h.database_name@.subrange(0, h.database_name@.len() as int) =~= h.database_name@);
    assert(final(out)@ =~= old(out)@ + row_text(file@, h@));
}

/// The canonical report of the hits, in their order.
pub fn results_tsv(hits: &Vec<BlastHit>, fasta_filename: &[u8]) -> (r: Vec<u8>)
    requires
        forall|i: int| 0 <= i < hits@.len() ==> (#[trigger] hits@[i]).hit.well_formed(),
    ensures
        r@ == report_text(fasta_filename@, enriched_views(hits@)),
{
    let mut out: Vec<u8> = vec![0x23, 0x46, 0x49, 0x4c, 0x45, 0x09, 0x53, 0x45, 0x51, 0x55, 0x45, 0x4e, 0x43, 0x45, 0x09, 0x53, 0x54, 0x41, 0x52, 0x54, 0x09, 0x45, 0x4e, 0x44, 0x09, 0x47, 0x45, 0x4e, 0x45, 0x09, 0x25, 0x43, 0x4f, 0x56, 0x45, 0x52, 0x41, 0x47, 0x45, 0x09, 0x43, 0x4f, 0x56, 0x45, 0x52, 0x41, 0x47, 0x45, 0x5f, 0x4d, 0x41, 0x50, 0x09, 0x25, 0x49, 0x44, 0x45, 0x4e, 0x54, 0x49, 0x54, 0x59, 0x09, 0x44, 0x42, 0x0a];
    assert(out@ =~= report_header());
    let mut i: usize = 0;
    assert(enriched_views(hits@).take(0) =~= Seq::<EnrichedModel>::empty());
    while i < hits.len()
        invariant
            i <= hits.len(),
            forall|k: int| 0 <= k < hits@.len() ==> (#[trigger] hits@[k]).hit.well_formed(),
            out@ == report_header() + rows_text(fasta_filename@, enriched_views(hits@).take(i as int)),
        decreases hits.len() - i,
    {
        assert(enriched_views(hits@).take(i + 1).drop_last() =~= enriched_views(hits@).take(i as int));
        assert(enriched_views(hits@).take(i + 1).last() == hits@[i as int]@);
        assert(hits@[i as int].hit.well_formed());
        push_row(&mut out, fasta_filename, &hits[i]);
        assert(out@ =~= report_header() + rows_text(fasta_filename@, enriched_views(hits@).take(i + 1)));
        i = i + 1;
    }
    assert(enriched_views(hits@).take(hits.len() as int) =~= enriched_views(hits@));
    out
}

/// The whole run after the aligner: reads its output lines, enriches the hits
/// from the store, and writes the report.
pub fn screen(
    store: &SequenceStore,
    output_lines: &Vec<Vec<u8>>,
    database: &[u8],
    fasta_filename: &[u8],
) -> (r: Result<Vec<u8>, MalformedHit>)
    requires
        store.well_formed(),
    ensures
        match r {
            Ok(report) => run_outcome(store@, views(output_lines@), database@, fasta_filename@)
                == Ok::<Seq<u8>, Seq<u8>>(report@),
            Err(e) => run_outcome(store@, views(output_lines@), database@, fasta_filename@)
                == Err::<Seq<u8>, Seq<u8>>(e.line@),
        },
{
    let hits = parse_hits(output_lines)?;
    let enriched = enrich_hits(&hits, store, database);
    Ok(results_tsv(&enriched, fasta_filename))
}

} // verus!
