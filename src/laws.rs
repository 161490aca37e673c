//! Properties that hold of every input.
use vstd::prelude::*;
use crate::decimal::{decimal_of, tenths_text};
use crate::digits::{nat_text, unsigned_value};
use crate::enrich::enrich_all;
use crate::fields::split_on;
use crate::hit::{
    columns_numeric, hits_outcome, lemma_error_persists, line_outcome, HitModel, HIT_COLUMNS, TAB,
};
use crate::metrics::{coverage_sketch, coverage_text, SKETCH_WIDTH};
use crate::report::{report_text, run_outcome};
use crate::store::length_of;

verus! {

/// A line of twelve columns whose numeric columns read as numbers gives a hit
/// whose every field is the value of its column.
pub proof fn lemma_hit_fields_are_columns(line: Seq<u8>)
    requires
        split_on(line, TAB, TAB).len() == HIT_COLUMNS,
        columns_numeric(split_on(line, TAB, TAB)),
    ensures
        ({
            let f = split_on(line, TAB, TAB);
            line_outcome(line) matches Ok(Some(h)) && h.query_id == f[0] && h.subject_id == f[1]
                && decimal_of(f[2]) == Some(h.percent_identity) && unsigned_value(f[3]) == Some(
                h.alignment_length,
            ) && unsigned_value(f[4]) == Some(h.mismatches) && unsigned_value(f[5]) == Some(
                h.gap_opens,
            ) && unsigned_value(f[6]) == Some(h.query_start) && unsigned_value(f[7]) == Some(
                h.query_end,
            ) && unsigned_value(f[8]) == Some(h.subject_start) && unsigned_value(f[9]) == Some(
                h.subject_end,
            ) && decimal_of(f[10]) == Some(h.e_value) && decimal_of(f[11]) == Some(h.bit_score)
        }),
{
}

/// A line without exactly twelve columns changes nothing: the reading of the
/// lines around it is the same with it as without it.
pub proof fn lemma_short_line_skipped(before: Seq<Seq<u8>>, line: Seq<u8>, after: Seq<Seq<u8>>)
    requires
        split_on(line, TAB, TAB).len() != HIT_COLUMNS,
    ensures
        hits_outcome(before.push(line) + after) == hits_outcome(before + after),
    decreases after.len(),
{
    if after.len() == 0 {
        assert(before.push(line) + after =~= before.push(line));
        assert(before + after =~= before);
        assert(before.push(line).drop_last() =~= before);
    } else {
        lemma_short_line_skipped(before, line, after.drop_last());
        assert((before.push(line) + after).drop_last() =~= before.push(line) + after.drop_last());
        assert((before + after).drop_last() =~= before + after.drop_last());
    }
}

/// A line of twelve columns with a column that does not read as its number
/// type makes the whole reading fail, whatever comes after it.
pub proof fn lemma_bad_number_aborts(before: Seq<Seq<u8>>, line: Seq<u8>, after: Seq<Seq<u8>>)
    requires
        split_on(line, TAB, TAB).len() == HIT_COLUMNS,
        !columns_numeric(split_on(line, TAB, TAB)),
    ensures
        hits_outcome(before.push(line) + after) is Err,
{
    let all = before.push(line) + after;
    let m = before.len() as int + 1;
    assert(all.take(m) =~= before.push(line));
    assert(before.push(line).drop_last() =~= before);
    assert(hits_outcome(before.push(line)) is Err);
    lemma_error_persists(all, m);
}

/// An alignment over the whole query covers 100.0 percent; one over half of a
/// query of even length, 50.0 percent.
pub proof fn lemma_full_and_half_coverage(query: nat)
    requires
        query > 0,
    ensures
        coverage_text(query, query) == seq![0x31u8, 0x30u8, 0x30u8, 0x2eu8, 0x30u8],
        query % 2 == 0 ==> coverage_text(query / 2, query) == seq![0x35u8, 0x30u8, 0x2eu8, 0x30u8],
{
    vstd::arithmetic::div_mod::lemma_fundamental_div_mod_converse(
        (1000 * query) as int,
        query as int,
        1000,
        0,
    );
    assert(nat_text(100) =~= seq![0x31u8, 0x30u8, 0x30u8]) by {
        assert(nat_text(1) == seq![0x31u8]);
        assert(nat_text(10) =~= seq![0x31u8, 0x30u8]);
    }
    assert(tenths_text(false, 1000) =~= seq![0x31u8, 0x30u8, 0x30u8, 0x2eu8, 0x30u8]);
    if query % 2 == 0 {
        let half = query / 2;
        assert(1000 * half == 500 * query) by (nonlinear_arith)
            requires query == 2 * half;
        vstd::arithmetic::div_mod::lemma_fundamental_div_mod_converse(
            (1000 * half) as int,
            query as int,
            500,
            0,
        );
        assert(nat_text(50) =~= seq![0x35u8, 0x30u8]) by {
            assert(nat_text(5) == seq![0x35u8]);
        }
        assert(tenths_text(false, 500) =~= seq![0x35u8, 0x30u8, 0x2eu8, 0x30u8]);
    }
}

/// A coverage sketch never has more than fifty characters, and one of a query
/// shorter than fifty bases has one character per base.
pub proof fn lemma_sketch_width(query: nat, start: nat, end: nat)
    ensures
        coverage_sketch(query, start, end).len() <= SKETCH_WIDTH,
        query < SKETCH_WIDTH ==> coverage_sketch(query, start, end).len() == query,
{
    crate::metrics::lemma_sketch_len(query, 0);
    if query < SKETCH_WIDTH {
        assert(crate::metrics::sketch_step(query) == 1);
        if query > 0 {
            assert((query - 1) as nat / 1 == query - 1);
        }
    }
}

/// A hit whose query is not in the store leaves no trace: the enriched hits,
/// and so the report, are those of the other hits.
pub proof fn lemma_unknown_query_dropped(
    before: Seq<HitModel>,
    h: HitModel,
    after: Seq<HitModel>,
    store: Seq<(Seq<u8>, Seq<u8>)>,
    database: Seq<u8>,
    file: Seq<u8>,
)
    requires
        length_of(store, h.query_id) is None,
    ensures
        enrich_all(before.push(h) + after, store, database) == enrich_all(
            before + after,
            store,
            database,
        ),
        report_text(file, enrich_all(before.push(h) + after, store, database)) == report_text(
            file,
            enrich_all(before + after, store, database),
        ),
    decreases after.len(),
{
    if after.len() == 0 {
        assert(before.push(h) + after =~= before.push(h));
        assert(before + after =~= before);
        assert(before.push(h).drop_last() =~= before);
    } else {
        lemma_unknown_query_dropped(before, h, after.drop_last(), store, database, file);
        assert((before.push(h) + after).drop_last() =~= before.push(h) + after.drop_last());
        assert((before + after).drop_last() =~= before + after.drop_last());
    }
}

/// Two runs on the same store, output lines, database name and file name give
/// the same report, byte for byte, or fail on the same line.
pub proof fn lemma_run_deterministic(
    store1: Seq<(Seq<u8>, Seq<u8>)>,
    store2: Seq<(Seq<u8>, Seq<u8>)>,
    lines1: Seq<Seq<u8>>,
    lines2: Seq<Seq<u8>>,
    database: Seq<u8>,
    file: Seq<u8>,
)
    requires
        store1 == store2,
        lines1 == lines2,
    ensures
        run_outcome(store1, lines1, database, file) == run_outcome(store2, lines2, database, file),
{
}

} // verus!
