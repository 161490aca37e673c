//! What is derived from a hit: coverage percent, coverage sketch, gene name.
use vstd::prelude::*;
use crate::decimal::{half_even_div, tenths_text};
use crate::digits::u128_text;
use crate::fields::{split_bytes, split_on};

verus! {

/// The most characters a coverage sketch has.
pub const SKETCH_WIDTH: usize = 50;

/// Coverage of a query of `query` bases by an alignment of `aligned` columns,
/// in tenths of a percent, rounded half to even.
pub open spec fn coverage_tenths(aligned: nat, query: nat) -> nat {
    half_even_div(1000 * aligned, query)
}

/// The coverage percent with one digit after the point; `inf` for an empty
/// query, or `NaN` when nothing is aligned against it either.
pub open spec fn coverage_text(aligned: nat, query: nat) -> Seq<u8> {
    if query == 0 {
        if aligned == 0 {
            seq![0x4eu8, 0x61u8, 0x4eu8]
        } else {
            seq![0x69u8, 0x6eu8, 0x66u8]
        }
    } else {
        tenths_text(false, coverage_tenths(aligned, query))
    }
}

/// The distance between two sampled query positions of a sketch.
pub open spec fn sketch_step(query: nat) -> nat {
    query / 50 + 1
}

/// How many positions a sketch samples: those `k * step` below the query length.
pub open spec fn sketch_len(query: nat) -> nat {
    if query == 0 {
        0
    } else {
        ((query - 1) as nat / sketch_step(query) + 1) as nat
    }
}

/// Whether the alignment `[start, end]` (1-based, inclusive) covers the
/// 0-based query position `i`.
pub open spec fn covers(start: nat, end: nat, i: nat) -> bool {
    (if start == 0 {
        0
    } else {
        start - 1
    }) <= i && i < end
}

/// The coverage sketch: for each sampled position, `+` where the alignment
/// covers it and `.` where it does not.
pub open spec fn coverage_sketch(query: nat, start: nat, end: nat) -> Seq<u8> {
    Seq::new(
        sketch_len(query),
        |k: int|
            if covers(start, end, (k * sketch_step(query)) as nat) {
                0x2bu8
            } else {
                0x2eu8
            },
    )
}

/// The gene name of a subject identifier: what follows its last `|`, with
/// each `_` turned into `-`.
pub open spec fn gene_name(subject: Seq<u8>) -> Seq<u8> {
    split_on(subject, 0x7c, 0x7c).last().map_values(|b: u8| dash_for_underscore(b))
}

pub open spec fn dash_for_underscore(b: u8) -> u8 {
    if b == 0x5f {
        0x2d
    } else {
        b
    }
}

/// The display name of a database: what follows the last `/` of its path.
pub open spec fn database_name(path: Seq<u8>) -> Seq<u8> {
    split_on(path, 0x2f, 0x2f).last()
}

/// Which sampled positions fall below the query length.
pub proof fn lemma_sketch_len(query: nat, k: nat)
    ensures
        k * sketch_step(query) < query <==> k < sketch_len(query),
        sketch_len(query) <= SKETCH_WIDTH,
{
    let step = sketch_step(query);
    if query > 0 {
        let m = ((query - 1) as nat / step) as nat;
        vstd::arithmetic::div_mod::lemma_fundamental_div_mod(
            (query - 1) as int,
            step as int,
        );
        let r = ((query - 1) as nat % step) as nat;
        assert((query - 1) as nat == step * m + r);
        assert(r < step);
        assert(sketch_len(query) == m + 1);
        if k <= m {
            assert(k * step <= m * step) by (nonlinear_arith)
                requires k <= m;
            assert(k * step < query);
        } else {
            assert(k * step >= (m + 1) * step) by (nonlinear_arith)
                requires k >= m + 1;
            assert((m + 1) * step == step * m + step) by (nonlinear_arith);
            assert(k * step >= query);
        }
        vstd::arithmetic::div_mod::lemma_fundamental_div_mod(query as int, 50);
        assert(50 * step > query - 1);
        assert(m < 50) by (nonlinear_arith)
            requires step * m <= query - 1, 50 * step > query - 1, step >= 1;
    }
}

/// The coverage percent of `aligned` columns over a query of `query` bases,
/// with one digit after the point.
pub fn coverage_percent(aligned: usize, query: usize) -> (r: Vec<u8>)
    ensures
        r@ == coverage_text(aligned as nat, query as nat),
{
    if query == 0 {
        let mut v: Vec<u8> = Vec::new();
        if aligned == 0 {
            v.push(0x4e);
            v.push(0x61);
            v.push(0x4e);
        } else {
            v.push(0x69);
            v.push(0x6e);
            v.push(0x66);
        }
        assert(v@ =~= coverage_text(aligned as nat, query as nat));
        return v;
    }
    let n: u128 = 1000 * (aligned as u128);
    let d: u128 = query as u128;
    let q = n / d;
    let rem = n % d;
    let t: u128 = if 2 * rem > d || (2 * rem == d && q % 2 == 1) {
        q + 1
    } else {
        q
    };
    let mut out = u128_text(t / 10);
    out.push(0x2e);
    out.push(((t % 10) as u8) + 0x30);
    assert(out@ =~= coverage_text(aligned as nat, query as nat));
    out
}

/// The coverage sketch of an alignment `[start, end]` over a query of `query` bases.
pub fn coverage_sketch_of(query: usize, start: usize, end: usize) -> (r: Vec<u8>)
    ensures
        r@ == coverage_sketch(query as nat, start as nat, end as nat),
{
    let step: u128 = (query / 50 + 1) as u128;
    let lo: u128 = if start == 0 {
        0
    } else {
        (start - 1) as u128
    };
    let mut out: Vec<u8> = Vec::new();
    let mut i: u128 = 0;
    proof {
        lemma_sketch_len(query as nat, 0);
    }
    while i < query as u128 && out.len() < SKETCH_WIDTH
        invariant
            step == sketch_step(query as nat),
            lo == (if start == 0 {
                0
            } else {
                start - 1
            }),
            out@.len() <= sketch_len(query as nat) <= SKETCH_WIDTH,
            i == out@.len() * step,
            step <= query / 50 + 1,
            forall|k: int| 0 <= k < out@.len() ==> #[trigger] out@[k] == coverage_sketch(query as nat, start as nat, end as nat)[k],
        decreases SKETCH_WIDTH - out@.len(),
    {
        let ghost k = out@.len();
        proof {
            lemma_sketch_len(query as nat, k as nat);
        }
        let ghost prev = out@;
        if lo <= i && i < end as u128 {
            out.push(0x2b);
        } else {
            out.push(0x2e);
        }
        proof {
            let sk = coverage_sketch(query as nat, start as nat, end as nat);
            assert(k < sketch_len(query as nat));
            assert(i == (k * sketch_step(query as nat)) as nat);
            assert(lo == (if start == 0 { 0 } else { start - 1 }));
            assert(covers(start as nat, end as nat, i as nat) == (lo <= i && i < end));
            assert(sk[k as int] == (if covers(start as nat, end as nat, (k * sketch_step(query as nat)) as nat) { 0x2bu8 } else { 0x2eu8 }));
            assert(out@[k as int] == sk[k as int]);
            assert forall|j: int| 0 <= j < out@.len() implies #[trigger] out@[j] == sk[j] by {
                if j < k {
                    assert(out@[j] == prev[j]);
                }
            }
        }
        assert(i + step == (k + 1) * step) by (nonlinear_arith)
            requires i == k * step;
        assert((k + 1) * step <= 50 * step) by (nonlinear_arith)
            requires k + 1 <= 50, step >= 0;
        i = i + step;
    }
    proof {
        let k = out@.len();
        lemma_sketch_len(query as nat, k as nat);
    }
    assert(out@ =~= coverage_sketch(query as nat, start as nat, end as nat));
    out
}

/// The last piece of `s` after splitting at `sep`.
fn last_piece(s: &[u8], sep: u8) -> (r: Vec<u8>)
    ensures
        r@ == split_on(s@, sep, sep).last(),
{
    let mut pieces = split_bytes(s, sep, sep);
    proof {
        crate::fields::lemma_split_on_nonempty(s@, sep, sep);
    }
    let last = pieces.pop().unwrap();
    last
}

/// The gene name of a subject identifier.
pub fn gene_name_of(subject: &[u8]) -> (r: Vec<u8>)
    ensures
        r@ == gene_name(subject@),
{
    let last = last_piece(subject, 0x7c);
    let mut out: Vec<u8> = Vec::new();
    let mut i: usize = 0;
    while i < last.len()
        invariant
            i <= last@.len(),
            out@ == last@.take(i as int).map_values(|b: u8| dash_for_underscore(b)),
        decreases last.len() - i,
    {
        let b = last[i];
        out.push(if b == 0x5f {
            0x2d
        } else {
            b
        });
        assert(out@ =~= last@.take(i + 1).map_values(|b: u8| dash_for_underscore(b)));
        i = i + 1;
    }
    assert(last@.take(last@.len() as int) =~= last@);
    out
}

/// The display name of a database, from its path.
pub fn database_name_of(path: &[u8]) -> (r: Vec<u8>)
    ensures
        r@ == database_name(path@),
{
    last_piece(path, 0x2f)
}

} // verus!
