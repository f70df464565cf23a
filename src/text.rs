//! Byte spans of a file and the in-place edits made to them.
use core::ops::Range;
use vstd::prelude::*;

verus! {

/// The mathematical picture of a span: where it lies and what it holds.
pub struct Span {
    pub start: int,
    pub end: int,
    pub text: Seq<u8>,
}

impl Span {
    /// The offsets are ordered and the text is exactly as long as the range.
    pub open spec fn wf(self) -> bool {
        0 <= self.start <= self.end && self.text.len() == self.end - self.start
    }

    /// The span is a faithful copy of part of `file`.
    pub open spec fn lies_in(self, file: Seq<u8>) -> bool {
        &&& self.wf()
        &&& self.end <= file.len()
        &&& file.subrange(self.start, self.end) == self.text
    }

    /// The span is inside `outer`'s range.
    pub open spec fn within(self, outer: Span) -> bool {
        outer.start <= self.start && self.end <= outer.end
    }

    pub open spec fn covers(self, k: int) -> bool {
        self.start <= k < self.end
    }
}

/// Two spans share no byte.
pub open spec fn disjoint(a: Span, b: Span) -> bool {
    a.end <= b.start || b.end <= a.start
}

/// `file` with the range of `edit` replaced by its text.
pub open spec fn spliced(file: Seq<u8>, edit: Span) -> Seq<u8> {
    file.subrange(0, edit.start) + edit.text + file.subrange(edit.end, file.len() as int)
}

/// `file` after the edits, applied from first to last.
pub open spec fn applied(file: Seq<u8>, edits: Seq<Span>) -> Seq<u8>
    decreases edits.len(),
{
    if edits.len() == 0 {
        file
    } else {
        spliced(applied(file, edits.drop_last()), edits.last())
    }
}

/// Every edit keeps the length of what it replaces, lies inside a file of
/// `len` bytes, and no two edits touch the same byte.
pub open spec fn independent_edits(len: int, edits: Seq<Span>) -> bool {
    &&& forall|i: int| 0 <= i < edits.len() ==> (#[trigger] edits[i]).wf() && edits[i].end <= len
    &&& forall|i: int, j: int|
        0 <= i < edits.len() && 0 <= j < edits.len() && i != j ==> disjoint(
            #[trigger] edits[i],
            #[trigger] edits[j],
        )
}

/// The byte at `k` once all of `edits` are in place: the one an edit puts
/// there, or the file's own byte where no edit reaches.
pub open spec fn overlaid_byte(file: Seq<u8>, edits: Seq<Span>, k: int) -> u8 {
    if exists|i: int| 0 <= i < edits.len() && (#[trigger] edits[i]).covers(k) {
        let e = edits[choose|i: int| 0 <= i < edits.len() && (#[trigger] edits[i]).covers(k)];
        e.text[k - e.start]
    } else {
        file[k]
    }
}

proof fn lemma_spliced_pointwise(file: Seq<u8>, edit: Span)
    requires
        edit.wf(),
        edit.end <= file.len(),
    ensures
        spliced(file, edit).len() == file.len(),
        forall|k: int|
            0 <= k < file.len() ==> #[trigger] spliced(file, edit)[k] == if edit.covers(k) {
                edit.text[k - edit.start]
            } else {
                file[k]
            },
{
    let r = spliced(file, edit);
    assert forall|k: int| 0 <= k < file.len() implies #[trigger] r[k] == if edit.covers(k) {
        edit.text[k - edit.start]
    } else {
        file[k]
    } by {
        if k < edit.start {
        } else if k < edit.end {
        } else {
        }
    }
}

/// Independent edits leave the length alone, and each byte is the one
/// the edit covering it puts there, or the file's own.
pub proof fn lemma_applied_pointwise(file: Seq<u8>, edits: Seq<Span>)
    requires
        independent_edits(file.len() as int, edits),
    ensures
        applied(file, edits).len() == file.len(),
        forall|k: int|
            0 <= k < file.len() ==> #[trigger] applied(file, edits)[k] == overlaid_byte(
                file,
                edits,
                k,
            ),
    decreases edits.len(),
{
    if edits.len() > 0 {
        let rest = edits.drop_last();
        let last = edits.last();
        assert(independent_edits(file.len() as int, rest)) by {
            assert forall|i: int| 0 <= i < rest.len() implies (#[trigger] rest[i]).wf()
                && rest[i].end <= file.len() by {
                assert(rest[i] == edits[i]);
            }
            assert forall|i: int, j: int|
                0 <= i < rest.len() && 0 <= j < rest.len() && i != j implies disjoint(
                #[trigger] rest[i],
                #[trigger] rest[j],
            ) by {
                assert(rest[i] == edits[i] && rest[j] == edits[j]);
            }
        }
        lemma_applied_pointwise(file, rest);
        let before = applied(file, rest);
        assert(last == edits[edits.len() - 1]);
        lemma_spliced_pointwise(before, last);
        assert forall|k: int| 0 <= k < file.len() implies #[trigger] applied(file, edits)[k]
            == overlaid_byte(file, edits, k) by {
            if last.covers(k) {
                let w = edits.len() - 1;
                assert(edits[w].covers(k));
                let i = choose|i: int| 0 <= i < edits.len() && (#[trigger] edits[i]).covers(k);
                if i != w {
                    assert(disjoint(edits[i], edits[w]));
                }
            } else {
                if exists|i: int| 0 <= i < edits.len() && (#[trigger] edits[i]).covers(k) {
                    let i = choose|i: int| 0 <= i < edits.len() && (#[trigger] edits[i]).covers(k);
                    assert(i != edits.len() - 1);
                    assert(rest[i] == edits[i]);
                    assert(rest[i].covers(k));
                    let i2 = choose|i: int| 0 <= i < rest.len() && (#[trigger] rest[i]).covers(k);
                    assert(rest[i2] == edits[i2]);
                    if i2 != i {
                        assert(disjoint(edits[i], edits[i2]));
                    }
                } else {
                    assert forall|i: int| 0 <= i < rest.len() implies !(#[trigger] rest[i]).covers(
                        k,
                    ) by {
                        assert(rest[i] == edits[i]);
                    }
                }
            }
        }
    }
}

/// Edits that keep lengths and touch disjoint ranges give the same file in
/// whatever order they are applied: any two lists of them with the same
/// members lead to one result.
pub proof fn lemma_edit_order_irrelevant(file: Seq<u8>, first: Seq<Span>, second: Seq<Span>)
    requires
        independent_edits(file.len() as int, first),
        independent_edits(file.len() as int, second),
        forall|e: Span| first.contains(e) <==> second.contains(e),
    ensures
        applied(file, first) == applied(file, second),
{
    lemma_applied_pointwise(file, first);
    lemma_applied_pointwise(file, second);
    assert forall|k: int| 0 <= k < file.len() implies overlaid_byte(file, first, k)
        == overlaid_byte(file, second, k) by {
        if exists|i: int| 0 <= i < first.len() && (#[trigger] first[i]).covers(k) {
            let i = choose|i: int| 0 <= i < first.len() && (#[trigger] first[i]).covers(k);
            assert(first.contains(first[i]));
            assert(second.contains(first[i]));
            let j0 = choose|j: int| 0 <= j < second.len() && second[j] == first[i];
            assert(second[j0].covers(k));
            let j = choose|j: int| 0 <= j < second.len() && (#[trigger] second[j]).covers(k);
            if j != j0 {
                assert(disjoint(second[j], second[j0]));
            }
        } else {
            if exists|j: int| 0 <= j < second.len() && (#[trigger] second[j]).covers(k) {
                let j = choose|j: int| 0 <= j < second.len() && (#[trigger] second[j]).covers(k);
                assert(second.contains(second[j]));
                assert(first.contains(second[j]));
                let i = choose|i: int| 0 <= i < first.len() && first[i] == second[j];
                assert(first[i].covers(k));
            }
        }
    }
    assert(applied(file, first) =~= applied(file, second));
}

/// `perm` and `inverse` are mutually inverse maps of `0..n` onto itself.
pub open spec fn is_bijection(perm: Seq<int>, inverse: Seq<int>, n: int) -> bool {
    &&& perm.len() == n
    &&& inverse.len() == n
    &&& forall|i: int| 0 <= i < n ==> 0 <= #[trigger] perm[i] < n && inverse[perm[i]] == i
    &&& forall|i: int| 0 <= i < n ==> 0 <= #[trigger] inverse[i] < n && perm[inverse[i]] == i
}

/// `s` in the order that `perm` gives: its `i`-th element is `s[perm[i]]`.
pub open spec fn rearranged<T>(s: Seq<T>, perm: Seq<int>) -> Seq<T> {
    Seq::new(s.len(), |i: int| s[perm[i]])
}

/// Edits that keep lengths and touch disjoint ranges can be made in any
/// order: every rearrangement of them gives the same file.
pub proof fn lemma_edits_in_any_order(
    file: Seq<u8>,
    edits: Seq<Span>,
    perm: Seq<int>,
    inverse: Seq<int>,
)
    requires
        independent_edits(file.len() as int, edits),
        is_bijection(perm, inverse, edits.len() as int),
    ensures
        applied(file, rearranged(edits, perm)) == applied(file, edits),
{
    let order = rearranged(edits, perm);
    assert(independent_edits(file.len() as int, order)) by {
        assert forall|i: int| 0 <= i < order.len() implies (#[trigger] order[i]).wf() && order[i].end
            <= file.len() by {
            assert(order[i] == edits[perm[i]]);
        }
        assert forall|i: int, j: int|
            0 <= i < order.len() && 0 <= j < order.len() && i != j implies disjoint(
            #[trigger] order[i],
            #[trigger] order[j],
        ) by {
            assert(order[i] == edits[perm[i]]);
            assert(order[j] == edits[perm[j]]);
            assert(inverse[perm[i]] == i && inverse[perm[j]] == j);
        }
    }
    assert forall|e: Span| edits.contains(e) <==> order.contains(e) by {
        if edits.contains(e) {
            let i = choose|i: int| 0 <= i < edits.len() && edits[i] == e;
            assert(order[inverse[i]] == edits[perm[inverse[i]]]);
        }
        if order.contains(e) {
            let i = choose|i: int| 0 <= i < order.len() && order[i] == e;
            assert(order[i] == edits[perm[i]]);
        }
    }
    lemma_edit_order_irrelevant(file, edits, order);
}

/// A piece of a file: its byte range and a copy of the bytes in it.
#[derive(Debug)]
pub struct MatchedText {
    pub range: Range<usize>,
    pub text: Vec<u8>,
}

impl View for MatchedText {
    type V = Span;

    open spec fn view(&self) -> Span {
        Span { start: self.range.start as int, end: self.range.end as int, text: self.text@ }
    }
}

impl MatchedText {
    /// The part of `whole` between the offsets `from` and `to` of its text,
    /// placed where it lies in the file.
    pub fn sub_span(whole: &MatchedText, from: usize, to: usize) -> (r: MatchedText)
        requires
            whole@.wf(),
            from <= to <= whole.text@.len(),
        ensures
            r@ == (Span {
                start: whole@.start + from,
                end: whole@.start + to,
                text: whole.text@.subrange(from as int, to as int),
            }),
            r@.wf(),
            r@.within(whole@),
    {
        let text = copy_range(&whole.text, from, to);
        MatchedText { range: (whole.range.start + from)..(whole.range.start + to), text }
    }

    /// The span of `file` between `start` and `end`.
    pub fn of_file(file: &[u8], start: usize, end: usize) -> (r: MatchedText)
        requires
            start <= end <= file@.len(),
        ensures
            r@ == (Span { start: start as int, end: end as int, text: file@.subrange(start as int, end as int) }),
            r@.lies_in(file@),
    {
        let text = copy_range(file, start, end);
        MatchedText { range: start..end, text }
    }
}

/// The bytes of `s` from `from` up to `to`.
pub fn copy_range(s: &[u8], from: usize, to: usize) -> (r: Vec<u8>)
    requires
        from <= to <= s@.len(),
    ensures
        r@ == s@.subrange(from as int, to as int),
{
    let mut r: Vec<u8> = Vec::new();
    let mut i: usize = from;
    while i < to
        invariant
            from <= i <= to <= s@.len(),
            r@ == s@.subrange(from as int, i as int),
        decreases to - i,
    {
        r.push(s[i]);
        assert(r@ =~= s@.subrange(from as int, i + 1));
        i = i + 1;
    }
    r
}

/// A copy of all of `s`.
pub fn to_vec(s: &[u8]) -> (r: Vec<u8>)
    ensures
        r@ == s@,
{
    let r = copy_range(s, 0, s.len());
    assert(s@.subrange(0, s@.len() as int) =~= s@);
    r
}

/// Whether two byte strings are equal.
pub fn bytes_equal(a: &[u8], b: &[u8]) -> (r: bool)
    ensures
        r == (a@ == b@),
{
    if a.len() != b.len() {
        return false;
    }
    let mut i: usize = 0;
    while i < a.len()
        invariant
            a@.len() == b@.len(),
            i <= a@.len(),
            a@.subrange(0, i as int) == b@.subrange(0, i as int),
        decreases a@.len() - i,
    {
        if a[i] != b[i] {
            assert(a@[i as int] != b@[i as int]);
            return false;
        }
        assert(a@.subrange(0, i + 1) =~= a@.subrange(0, i as int).push(a@[i as int]));
        assert(b@.subrange(0, i + 1) =~= b@.subrange(0, i as int).push(b@[i as int]));
        i = i + 1;
    }
    assert(a@ =~= a@.subrange(0, i as int));
    assert(b@ =~= b@.subrange(0, i as int));
    true
}

/// Puts the text of `edit` in place of its range in `contents`.
pub fn apply_edit(contents: &mut Vec<u8>, edit: &MatchedText)
    requires
        edit@.wf(),
        edit@.end <= old(contents)@.len(),
    ensures
        final(contents)@ == spliced(old(contents)@, edit@),
{
    let len = contents.len();
    let mut out = copy_range(contents, 0, edit.range.start);
    let mut i: usize = 0;
    while i < edit.text.len()
        invariant
            out@ == contents@.subrange(0, edit@.start) + edit.text@.subrange(0, i as int),
            i <= edit.text@.len(),
        decreases edit.text@.len() - i,
    {
        out.push(edit.text[i]);
        assert(edit.text@.subrange(0, i + 1) =~= edit.text@.subrange(0, i as int).push(
            edit.text@[i as int],
        ));
        i = i + 1;
    }
    let mut j: usize = edit.range.end;
    while j < len
        invariant
            len == contents@.len(),
            edit@.end <= j <= len,
            out@ == contents@.subrange(0, edit@.start) + edit.text@ + contents@.subrange(
                edit@.end,
                j as int,
            ),
        decreases len - j,
    {
        out.push(contents[j]);
        assert(contents@.subrange(edit@.end, j + 1) =~= contents@.subrange(
            edit@.end,
            j as int,
        ).push(contents@[j as int]));
        j = j + 1;
    }
    assert(edit.text@.subrange(0, edit.text@.len() as int) =~= edit.text@);
    *contents = out;
}

} // verus!
