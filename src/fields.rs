//! Splitting a run of bytes into the pieces between separators.
use vstd::prelude::*;

verus! {

/// Whether `b` is one of the separators `x` and `y`.
pub open spec fn is_sep(b: u8, x: u8, y: u8) -> bool {
    b == x || b == y
}

/// The pieces of `s` between the bytes equal to `x` or `y`, in order. There is
/// always one piece more than there are separators; pieces may be empty.
pub open spec fn split_on(s: Seq<u8>, x: u8, y: u8) -> Seq<Seq<u8>>
    decreases s.len(),
{
    if s.len() == 0 {
        seq![Seq::<u8>::empty()]
    } else {
        let p = split_on(s.drop_last(), x, y);
        if is_sep(s.last(), x, y) {
            p.push(Seq::<u8>::empty())
        } else {
            p.update(p.len() - 1, p.last().push(s.last()))
        }
    }
}

/// The views of a sequence of byte vectors.
pub open spec fn views(v: Seq<Vec<u8>>) -> Seq<Seq<u8>> {
    v.map_values(|x: Vec<u8>| x@)
}

pub proof fn lemma_split_on_nonempty(s: Seq<u8>, x: u8, y: u8)
    ensures
        split_on(s, x, y).len() >= 1,
    decreases s.len(),
{
    if s.len() > 0 {
        lemma_split_on_nonempty(s.drop_last(), x, y);
    }
}

/// Appends `s[lo..hi]` to `out`.
pub fn append_range(out: &mut Vec<u8>, s: &[u8], lo: usize, hi: usize)
    requires
        lo <= hi <= s.len(),
    ensures
        final(out)@ == old(out)@ + s@.subrange(lo as int, hi as int),
{
    let mut i: usize = lo;
    while i < hi
        invariant
            lo <= i <= hi <= s.len(),
            out@ == old(out)@ + s@.subrange(lo as int, i as int),
        decreases hi - i,
    {
        out.push(s[i]);
        i = i + 1;
        assert(out@ =~= old(out)@ + s@.subrange(lo as int, i as int));
    }
}

/// A copy of `s`.
pub fn copy_bytes(s: &[u8]) -> (r: Vec<u8>)
    ensures
        r@ == s@,
{
    let mut out: Vec<u8> = Vec::new();
    append_range(&mut out, s, 0, s.len());
    assert(out@ =~= s@);
    out
}

/// Whether two runs of bytes are equal.
pub fn bytes_equal(a: &[u8], b: &[u8]) -> (r: bool)
    ensures
        r == (a@ == b@),
{
    if a.len() != b.len() {
        return false;
    }
    let mut i: usize = 0;
    while i < a.len()
        invariant
            i <= a.len() == b.len(),
            forall|k: int| 0 <= k < i ==> a@[k] == b@[k],
        decreases a.len() - i,
    {
        if a[i] != b[i] {
            return false;
        }
        i = i + 1;
    }
    assert(a@ =~= b@);
    true
}

/// Cuts `s` at every byte equal to `x` or `y`.
pub fn split_bytes(s: &[u8], x: u8, y: u8) -> (r: Vec<Vec<u8>>)
    ensures
        views(r@) == split_on(s@, x, y),
{
    let mut pieces: Vec<Vec<u8>> = Vec::new();
    let mut cur: Vec<u8> = Vec::new();
    let mut i: usize = 0;
    assert(s@.take(0) =~= Seq::<u8>::empty());
    assert(views(pieces@).push(cur@) =~= split_on(s@.take(0), x, y));
    while i < s.len()
        invariant
            i <= s.len(),
            views(pieces@).push(cur@) == split_on(s@.take(i as int), x, y),
        decreases s.len() - i,
    {
        let b = s[i];
        let ghost prev = split_on(s@.take(i as int), x, y);
        assert(s@.take(i + 1).drop_last() =~= s@.take(i as int));
        assert(s@.take(i + 1).last() == b);
        if b == x || b == y {
            let done = cur;
            pieces.push(done);
            cur = Vec::new();
            assert(views(pieces@).push(cur@) =~= prev.push(Seq::<u8>::empty()));
        } else {
            cur.push(b);
            assert(views(pieces@).push(cur@) =~= prev.update(
                prev.len() - 1,
                prev.last().push(b),
            ));
        }
        i = i + 1;
    }
    assert(s@.take(s.len() as int) =~= s@);
    pieces.push(cur);
    assert(views(pieces@) =~= split_on(s@, x, y));
    pieces
}

} // verus!
