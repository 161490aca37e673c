//! Reading a FASTA text into the sequence store.
use vstd::prelude::*;
use crate::store::{contig_entry, store_of, Contig, SequenceStore};

verus! {

/// The records of a FASTA text as bio reads them, each as identifier bytes and
/// bases; `None` where bio reports an error.
pub uninterp spec fn fasta_records(text: Seq<u8>) -> Option<Seq<(Seq<u8>, Seq<u8>)>>;

/// Relies on `bio::io::fasta::Reader::records`: for each record, its identifier
/// (the header after `>`, up to the first whitespace) and its bases; reading
/// stops at the first error, which empty text never gives and text whose first
/// byte is not `>` always gives.
#[verifier::external_body]
fn fasta_contigs(text: &[u8]) -> (r: Option<Vec<Contig>>)
    ensures
        r is Some ==> fasta_records(text@) == Some(
            r->Some_0@.map_values(|c: Contig| contig_entry(c)),
        ),
        r is None ==> fasta_records(text@) is None,
        text@.len() == 0 ==> (r is Some && r->Some_0@.len() == 0),
        (text@.len() > 0 && text@[0] != 0x3e) ==> r is None,
{
    let mut contigs = Vec::new();
    for record in bio::io::fasta::Reader::new(text).records() {
        let record = record.ok()?;
        contigs.push(Contig { id: record.id().to_owned(), seq: record.seq().to_owned() });
    }
    Some(contigs)
}

/// The sequence store of a FASTA text, records added in file order; `None`
/// when the text is not FASTA.
pub fn parse_fasta(text: &[u8]) -> (r: Option<SequenceStore>)
    ensures
        match r {
            Some(s) => s.well_formed() && fasta_records(text@) is Some && s@ == store_of(
                fasta_records(text@)->Some_0,
            ),
            None => fasta_records(text@) is None,
        },
        text@.len() == 0 ==> (r is Some && r->Some_0@.len() == 0),
        (text@.len() > 0 && text@[0] != 0x3e) ==> r is None,
{
    match fasta_contigs(text) {
        Some(contigs) => {
            let ghost n = contigs@.len();
            let s = SequenceStore::from_contigs(contigs);
            proof {
                if text@.len() == 0 {
                    assert(n == 0);
                    assert(Seq::<(Seq<u8>, Seq<u8>)>::empty().len() == 0);
                }
            }
            Some(s)
        },
        None => None,
    }
}

} // verus!
