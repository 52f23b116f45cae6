//! Cutting the text of a unified diff into hunks.
//!
//! A hunk begins at a line that starts with `@@` and runs up to the next such
//! line or the end of the text. What stands before the first hunk is the
//! preamble. Cutting keeps every byte: the preamble followed by the hunks is
//! the text.

use vstd::prelude::*;

verus! {

/// Whether a line begins at `i`.
pub open spec fn line_start(p: Seq<u8>, i: int) -> bool {
    0 <= i < p.len() && (i == 0 || p[i - 1] == 0x0a)
}

/// Whether a hunk begins at `i`: a line begins there with `@@`.
pub open spec fn hunk_start(p: Seq<u8>, i: int) -> bool {
    line_start(p, i) && i + 1 < p.len() && p[i] == 0x40 && p[i + 1] == 0x40
}

/// The places below `n` at which a hunk begins, in rising order.
pub open spec fn hunk_starts(p: Seq<u8>, n: int) -> Seq<int>
    decreases n,
{
    if n <= 0 {
        Seq::empty()
    } else if hunk_start(p, n - 1) {
        hunk_starts(p, n - 1).push(n - 1)
    } else {
        hunk_starts(p, n - 1)
    }
}

/// The `k`-th piece of `p` cut at `starts`: from the `k`-th place to the next
/// one, or to the end of `p`.
pub open spec fn piece(p: Seq<u8>, starts: Seq<int>, k: int) -> Seq<u8> {
    p.subrange(
        starts[k],
        if k + 1 < starts.len() {
            starts[k + 1]
        } else {
            p.len() as int
        },
    )
}

/// The hunks of a diff text.
pub open spec fn hunks_of(p: Seq<u8>) -> Seq<Seq<u8>> {
    let starts = hunk_starts(p, p.len() as int);
    Seq::new(starts.len(), |k: int| piece(p, starts, k))
}

/// What stands before the first hunk of a diff text.
pub open spec fn preamble_of(p: Seq<u8>) -> Seq<u8> {
    let starts = hunk_starts(p, p.len() as int);
    if starts.len() == 0 {
        p
    } else {
        p.subrange(0, starts[0])
    }
}

/// All texts of a sequence, one after the other.
pub open spec fn concat_all(parts: Seq<Seq<u8>>) -> Seq<u8>
    decreases parts.len(),
{
    if parts.len() == 0 {
        Seq::empty()
    } else {
        concat_all(parts.drop_last()) + parts.last()
    }
}

/// The places at which hunks begin rise strictly, lie below `n`, and are
/// exactly the places below `n` at which a hunk begins.
pub proof fn lemma_hunk_starts(p: Seq<u8>, n: int)
    requires
        n <= p.len(),
    ensures
        forall|k: int|
            0 <= k < hunk_starts(p, n).len() ==> 0 <= (#[trigger] hunk_starts(p, n)[k]) < n
                && hunk_start(p, hunk_starts(p, n)[k]),
        forall|j: int, k: int|
            0 <= j < k < hunk_starts(p, n).len() ==> (#[trigger] hunk_starts(p, n)[j]) < (
            #[trigger] hunk_starts(p, n)[k]),
        forall|i: int|
            0 <= i < n && hunk_start(p, i) ==> exists|k: int|
                0 <= k < hunk_starts(p, n).len() && #[trigger] hunk_starts(p, n)[k] == i,
    decreases n,
{
    if n > 0 {
        lemma_hunk_starts(p, n - 1);
        let a = hunk_starts(p, n);
        let b = hunk_starts(p, n - 1);
        assert forall|i: int| 0 <= i < n && hunk_start(p, i) implies exists|k: int|
            0 <= k < a.len() && #[trigger] a[k] == i by {
            if i < n - 1 {
                let k = choose|k: int| 0 <= k < b.len() && #[trigger] b[k] == i;
                assert(a[k] == i);
            } else {
                assert(a[a.len() - 1] == i);
            }
        }
    }
}

/// Cutting loses nothing: the preamble followed by the hunks is the text.
pub proof fn lemma_hunks_reassemble(p: Seq<u8>)
    ensures
        preamble_of(p) + concat_all(hunks_of(p)) == p,
{
    let starts = hunk_starts(p, p.len() as int);
    lemma_hunk_starts(p, p.len() as int);
    let hs = hunks_of(p);
    if starts.len() == 0 {
        assert(hs =~= Seq::<Seq<u8>>::empty());
        assert(preamble_of(p) + concat_all(hs) =~= p);
    } else {
        lemma_pieces_join(p, starts, starts.len() as int);
        assert(hs.take(starts.len() as int) =~= hs);
        assert(preamble_of(p) + concat_all(hs) =~= p);
    }
}

proof fn lemma_pieces_join(p: Seq<u8>, starts: Seq<int>, k: int)
    requires
        starts.len() > 0,
        0 <= k <= starts.len(),
        forall|i: int| 0 <= i < starts.len() ==> 0 <= #[trigger] starts[i] < p.len(),
        forall|i: int, j: int| 0 <= i < j < starts.len() ==> #[trigger] starts[i] < #[trigger] starts[j],
    ensures
        concat_all(Seq::new(starts.len(), |i: int| piece(p, starts, i)).take(k)) == p.subrange(
            starts[0],
            if k < starts.len() {
                starts[k]
            } else {
                p.len() as int
            },
        ),
    decreases k,
{
    let all = Seq::new(starts.len(), |i: int| piece(p, starts, i));
    if k == 0 {
        assert(all.take(0) =~= Seq::<Seq<u8>>::empty());
        assert(concat_all(all.take(0)) =~= p.subrange(starts[0], starts[0]));
    } else {
        lemma_pieces_join(p, starts, k - 1);
        let upto = all.take(k);
        assert(upto.drop_last() =~= all.take(k - 1));
        assert(upto.last() == piece(p, starts, k - 1));
        let end = if k < starts.len() {
            starts[k]
        } else {
            p.len() as int
        };
        assert(p.subrange(starts[0], starts[k - 1]) + p.subrange(starts[k - 1], end) =~= p.subrange(
            starts[0],
            end,
        ));
    }
}

/// One hunk of a unified diff: its header line and the lines under it, as
/// they stand in the diff text.
#[derive(Clone, Debug, PartialEq, Eq)]
pub struct Hunk {
    pub text: Vec<u8>,
}

impl View for Hunk {
    type V = Seq<u8>;

    open spec fn view(&self) -> Seq<u8> {
        self.text@
    }
}

/// The text of every hunk of a sequence, in order.
pub open spec fn hunk_texts(v: Seq<Hunk>) -> Seq<Seq<u8>> {
    Seq::new(v.len(), |i: int| v[i]@)
}

/// The places of a vector as integers.
pub open spec fn places(v: Seq<usize>) -> Seq<int> {
    Seq::new(v.len(), |i: int| v[i] as int)
}

/// Copies the bytes of `v` from `from` up to `to`.
pub fn copy_range(v: &Vec<u8>, from: usize, to: usize) -> (r: Vec<u8>)
    requires
        from <= to <= v.len(),
    ensures
        r@ == v@.subrange(from as int, to as int),
{
    let mut r: Vec<u8> = Vec::new();
    let mut i: usize = from;
    while i < to
        invariant
            from <= i <= to <= v.len(),
            r@ == v@.subrange(from as int, i as int),
        decreases to - i,
    {
        r.push(v[i]);
        assert(v@.subrange(from as int, i + 1) =~= v@.subrange(from as int, i as int).push(v@[i as int]));
        i += 1;
    }
    r
}

/// Finds the places at which hunks begin.
pub fn find_hunk_starts(patch: &Vec<u8>) -> (starts: Vec<usize>)
    ensures
        places(starts@) == hunk_starts(patch@, patch.len() as int),
{
    let mut starts: Vec<usize> = Vec::new();
    let n = patch.len();
    let mut i: usize = 0;
    assert(places(starts@) =~= hunk_starts(patch@, 0));
    while i < n
        invariant
            n == patch.len(),
            i <= n,
            places(starts@) == hunk_starts(patch@, i as int),
        decreases n - i,
    {
        let at_line = i == 0 || patch[i - 1] == 0x0a;
        if at_line && i + 1 < n && patch[i] == 0x40 && patch[i + 1] == 0x40 {
            let ghost before = starts@;
            starts.push(i);
            assert(places(starts@) =~= places(before).push(i as int));
        }
        i += 1;
    }
    starts
}

/// Cuts a diff text into its hunks.
pub fn split_hunks(patch: &Vec<u8>) -> (hunks: Vec<Hunk>)
    ensures
        hunk_texts(hunks@) == hunks_of(patch@),
{
    let starts = find_hunk_starts(patch);
    let ghost marks = hunk_starts(patch@, patch.len() as int);
    proof {
        lemma_hunk_starts(patch@, patch.len() as int);
    }
    let mut hunks: Vec<Hunk> = Vec::new();
    let m = starts.len();
    let mut k: usize = 0;
    while k < m
        invariant
            m == starts.len(),
            k <= m,
            marks == hunk_starts(patch@, patch.len() as int),
            places(starts@) == marks,
            forall|i: int| 0 <= i < marks.len() ==> 0 <= #[trigger] marks[i] < patch.len(),
            forall|i: int, j: int| 0 <= i < j < marks.len() ==> #[trigger] marks[i] < #[trigger] marks[j],
            hunks.len() == k,
            forall|i: int| 0 <= i < k ==> (#[trigger] hunks@[i])@ == piece(patch@, marks, i),
        decreases m - k,
    {
        assert(places(starts@)[k as int] == marks[k as int]);
        let from = starts[k];
        let to = if k + 1 < m {
            assert(places(starts@)[k + 1] == marks[k + 1]);
            starts[k + 1]
        } else {
            patch.len()
        };
        let text = copy_range(patch, from, to);
        hunks.push(Hunk { text });
        k += 1;
    }
    assert(hunk_texts(hunks@) =~= hunks_of(patch@));
    hunks
}

} // verus!
