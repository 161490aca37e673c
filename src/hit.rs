//! Alignment hits: one per line of the aligner's twelve-column tabular output.
use vstd::prelude::*;
use crate::decimal::{decimal_of, parse_decimal, Decimal};
use crate::digits::{parse_usize, unsigned_value};
use crate::fields::{copy_bytes, split_bytes, split_on, views};

verus! {

/// The column separator of the aligner's output.
pub const TAB: u8 = 0x09;

/// The number of columns of a hit line.
pub const HIT_COLUMNS: usize = 12;

/// One alignment of a query sequence against a database subject, as reported.
/// Coordinates are 1-based; a subject on the reverse strand has
/// `subject_start > subject_end`.
pub struct AlignmentHit {
    pub query_id: Vec<u8>,
    pub subject_id: Vec<u8>,
    pub percent_identity: Decimal,
    pub alignment_length: usize,
    pub mismatches: usize,
    pub gap_opens: usize,
    pub query_start: usize,
    pub query_end: usize,
    pub subject_start: usize,
    pub subject_end: usize,
    pub e_value: Decimal,
    pub bit_score: Decimal,
}

/// What an `AlignmentHit` holds.
pub ghost struct HitModel {
    pub query_id: Seq<u8>,
    pub subject_id: Seq<u8>,
    pub percent_identity: (bool, Seq<u8>, int),
    pub alignment_length: usize,
    pub mismatches: usize,
    pub gap_opens: usize,
    pub query_start: usize,
    pub query_end: usize,
    pub subject_start: usize,
    pub subject_end: usize,
    pub e_value: (bool, Seq<u8>, int),
    pub bit_score: (bool, Seq<u8>, int),
}

impl View for AlignmentHit {
    type V = HitModel;

    open spec fn view(&self) -> HitModel {
        HitModel {
            query_id: self.query_id@,
            subject_id: self.subject_id@,
            percent_identity: self.percent_identity@,
            alignment_length: self.alignment_length,
            mismatches: self.mismatches,
            gap_opens: self.gap_opens,
            query_start: self.query_start,
            query_end: self.query_end,
            subject_start: self.subject_start,
            subject_end: self.subject_end,
            e_value: self.e_value@,
            bit_score: self.bit_score@,
        }
    }
}

impl AlignmentHit {
    pub open spec fn well_formed(&self) -> bool {
        self.percent_identity.well_formed() && self.e_value.well_formed()
            && self.bit_score.well_formed()
    }

    pub fn copy(&self) -> (r: AlignmentHit)
        ensures
            r@ == self@,
            r.well_formed() == self.well_formed(),
    {
        AlignmentHit {
            query_id: copy_bytes(self.query_id.as_slice()),
            subject_id: copy_bytes(self.subject_id.as_slice()),
            percent_identity: self.percent_identity.copy(),
            alignment_length: self.alignment_length,
            mismatches: self.mismatches,
            gap_opens: self.gap_opens,
            query_start: self.query_start,
            query_end: self.query_end,
            subject_start: self.subject_start,
            subject_end: self.subject_end,
            e_value: self.e_value.copy(),
            bit_score: self.bit_score.copy(),
        }
    }
}

/// A line of twelve columns in which a numeric column does not read as its type.
pub struct MalformedHit {
    pub line: Vec<u8>,
}

/// Whether every numeric column of twelve reads as its type.
pub open spec fn columns_numeric(f: Seq<Seq<u8>>) -> bool {
    decimal_of(f[2]) is Some && unsigned_value(f[3]) is Some && unsigned_value(f[4]) is Some
        && unsigned_value(f[5]) is Some && unsigned_value(f[6]) is Some && unsigned_value(f[7]) is Some
        && unsigned_value(f[8]) is Some && unsigned_value(f[9]) is Some && decimal_of(f[10]) is Some
        && decimal_of(f[11]) is Some
}

/// The hit that twelve numeric columns spell, column by column.
pub open spec fn hit_of_columns(f: Seq<Seq<u8>>) -> HitModel {
    HitModel {
        query_id: f[0],
        subject_id: f[1],
        percent_identity: decimal_of(f[2])->Some_0,
        alignment_length: unsigned_value(f[3])->Some_0,
        mismatches: unsigned_value(f[4])->Some_0,
        gap_opens: unsigned_value(f[5])->Some_0,
        query_start: unsigned_value(f[6])->Some_0,
        query_end: unsigned_value(f[7])->Some_0,
        subject_start: unsigned_value(f[8])->Some_0,
        subject_end: unsigned_value(f[9])->Some_0,
        e_value: decimal_of(f[10])->Some_0,
        bit_score: decimal_of(f[11])->Some_0,
    }
}

/// What one line of output yields: nothing for a line without exactly twelve
/// tab-separated columns, an error for twelve columns with a bad number, and
/// otherwise the hit.
pub open spec fn line_outcome(line: Seq<u8>) -> Result<Option<HitModel>, ()> {
    let f = split_on(line, TAB, TAB);
    if f.len() != HIT_COLUMNS {
        Ok(None)
    } else if columns_numeric(f) {
        Ok(Some(hit_of_columns(f)))
    } else {
        Err(())
    }
}

/// What a run of output lines yields: the hits in line order, or the first
/// line with a bad number.
pub open spec fn hits_outcome(lines: Seq<Seq<u8>>) -> Result<Seq<HitModel>, Seq<u8>>
    decreases lines.len(),
{
    if lines.len() == 0 {
        Ok(Seq::empty())
    } else {
        match hits_outcome(lines.drop_last()) {
            Err(bad) => Err(bad),
            Ok(hits) => match line_outcome(lines.last()) {
                Err(_) => Err(lines.last()),
                Ok(None) => Ok(hits),
                Ok(Some(h)) => Ok(hits.push(h)),
            },
        }
    }
}

/// The models of a run of hits.
pub open spec fn hit_views(v: Seq<AlignmentHit>) -> Seq<HitModel> {
    v.map_values(|h: AlignmentHit| h@)
}

/// Once a prefix of the lines has failed, the whole fails the same way.
pub proof fn lemma_error_persists(lines: Seq<Seq<u8>>, m: int)
    requires
        0 <= m <= lines.len(),
        hits_outcome(lines.take(m)) is Err,
    ensures
        hits_outcome(lines) == hits_outcome(lines.take(m)),
    decreases lines.len(),
{
    if m == lines.len() {
        assert(lines.take(m) =~= lines);
    } else {
        assert(lines.drop_last().take(m) =~= lines.take(m));
        lemma_error_persists(lines.drop_last(), m);
    }
}

/// Reads one line of the aligner's tabular output.
pub fn parse_hit_line(line: &[u8]) -> (r: Result<Option<AlignmentHit>, MalformedHit>)
    ensures
        match r {
            Ok(Some(h)) => line_outcome(line@) == Ok::<Option<HitModel>, ()>(Some(h@))
                && h.well_formed(),
            Ok(None) => line_outcome(line@) == Ok::<Option<HitModel>, ()>(None),
            Err(e) => line_outcome(line@) == Err::<Option<HitModel>, ()>(()) && e.line@ == line@,
        },
{
    let f = split_bytes(line, TAB, TAB);
    if f.len() != HIT_COLUMNS {
        return Ok(None);
    }
    proof {
        assert forall|i: int| 0 <= i < 12 implies #[trigger] f@[i]@ == views(f@)[i] by {}
    }
    let percent_identity = match parse_decimal(f[2].as_slice()) {
        Some(d) => d,
        None => return Err(MalformedHit { line: copy_bytes(line) }),
    };
    let alignment_length = match parse_usize(f[3].as_slice()) {
        Some(v) => v,
        None => return Err(MalformedHit { line: copy_bytes(line) }),
    };
    let mismatches = match parse_usize(f[4].as_slice()) {
        Some(v) => v,
        None => return Err(MalformedHit { line: copy_bytes(line) }),
    };
    let gap_opens = match parse_usize(f[5].as_slice()) {
        Some(v) => v,
        None => return Err(MalformedHit { line: copy_bytes(line) }),
    };
    let query_start = match parse_usize(f[6].as_slice()) {
        Some(v) => v,
        None => return Err(MalformedHit { line: copy_bytes(line) }),
    };
    let query_end = match parse_usize(f[7].as_slice()) {
        Some(v) => v,
        None => return Err(MalformedHit { line: copy_bytes(line) }),
    };
    let subject_start = match parse_usize(f[8].as_slice()) {
        Some(v) => v,
        None => return Err(MalformedHit { line: copy_bytes(line) }),
    };
    let subject_end = match parse_usize(f[9].as_slice()) {
        Some(v) => v,
        None => return Err(MalformedHit { line: copy_bytes(line) }),
    };
    let e_value = match parse_decimal(f[10].as_slice()) {
        Some(d) => d,
        None => return Err(MalformedHit { line: copy_bytes(line) }),
    };
    let bit_score = match parse_decimal(f[11].as_slice()) {
        Some(d) => d,
        None => return Err(MalformedHit { line: copy_bytes(line) }),
    };
    let h = AlignmentHit {
        query_id: copy_bytes(f[0].as_slice()),
        subject_id: copy_bytes(f[1].as_slice()),
        percent_identity,
        alignment_length,
        mismatches,
        gap_opens,
        query_start,
        query_end,
        subject_start,
        subject_end,
        e_value,
        bit_score,
    };
    assert(h@ == hit_of_columns(split_on(line@, TAB, TAB)));
    Ok(Some(h))
}

/// Reads the aligner's output, line by line: lines without twelve columns are
/// passed over; the first line of twelve columns with a bad number ends the
/// reading with an error.
pub fn parse_hits(lines: &Vec<Vec<u8>>) -> (r: Result<Vec<AlignmentHit>, MalformedHit>)
    ensures
        match r {
            Ok(hits) => hits_outcome(views(lines@)) == Ok::<Seq<HitModel>, Seq<u8>>(
                hit_views(hits@),
            ) && forall|i: int| 0 <= i < hits@.len() ==> (#[trigger] hits@[i]).well_formed(),
            Err(e) => hits_outcome(views(lines@)) == Err::<Seq<HitModel>, Seq<u8>>(e.line@),
        },
{
    let mut hits: Vec<AlignmentHit> = Vec::new();
    let mut i: usize = 0;
    assert(views(lines@).take(0) =~= Seq::<Seq<u8>>::empty());
    assert(hit_views(hits@) =~= Seq::<HitModel>::empty());
    while i < lines.len()
        invariant
            i <= lines.len(),
            hits_outcome(views(lines@).take(i as int)) == Ok::<Seq<HitModel>, Seq<u8>>(
                hit_views(hits@),
            ),
            forall|k: int| 0 <= k < hits@.len() ==> (#[trigger] hits@[k]).well_formed(),
        decreases lines.len() - i,
    {
        let ghost before = views(lines@).take(i as int);
        let ghost after = views(lines@).take(i + 1);
        assert(after.drop_last() =~= before);
        assert(after.last() == lines@[i as int]@);
        match parse_hit_line(lines[i].as_slice()) {
            Err(e) => {
                proof {
                    lemma_error_persists(views(lines@), i as int + 1);
                }
                return Err(e);
            },
            Ok(None) => {},
            Ok(Some(h)) => {
                let ghost prev = hits@;
                hits.push(h);
                assert(hit_views(hits@) =~= hit_views(prev).push(h@));
            },
        }
        i = i + 1;
    }
    assert(views(lines@).take(lines.len() as int) =~= views(lines@));
    Ok(hits)
}

} // verus!
