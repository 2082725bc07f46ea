//! Vertical spans of solid voxels and the area tag they carry.

use vstd::prelude::*;

verus! {

/// The largest height, in vertical cells, that a span can reach.
pub const MAX_SPAN_HEIGHT: u16 = 8191;

/// Whether a surface can be walked on.
#[derive(Clone, Copy, Debug, PartialEq, Eq, Structural)]
pub enum AreaType {
    NotWalkable,
    Walkable,
}

impl AreaType {
    /// The tag that wins when two spans are merged: walkable wins.
    pub open spec fn spec_prevailing(self, other: AreaType) -> AreaType {
        if self == AreaType::Walkable || other == AreaType::Walkable {
            AreaType::Walkable
        } else {
            AreaType::NotWalkable
        }
    }

    /// Picks the tag that wins when two spans are merged.
    pub fn prevailing(self, other: AreaType) -> (r: AreaType)
        ensures
            r == self.spec_prevailing(other),
    {
        match (self, other) {
            (AreaType::NotWalkable, AreaType::NotWalkable) => AreaType::NotWalkable,
            _ => AreaType::Walkable,
        }
    }
}

/// The vertical interval from `min` up to, but not including, `max`, in vertical cells.
#[derive(Clone, Copy, Debug, PartialEq, Eq, Structural)]
pub struct Span {
    pub min: u16,
    pub max: u16,
    pub area: AreaType,
}

impl Span {
    /// The interval is not empty and ends no higher than [`MAX_SPAN_HEIGHT`].
    pub open spec fn wf(&self) -> bool {
        self.min < self.max && self.max <= MAX_SPAN_HEIGHT
    }

    /// Tests whether the interval is not empty and ends no higher than [`MAX_SPAN_HEIGHT`].
    pub fn is_valid(&self) -> (r: bool)
        ensures
            r == self.wf(),
    {
        self.min < self.max && self.max <= MAX_SPAN_HEIGHT
    }

    /// The height `y` lies in the interval.
    pub open spec fn spec_covers(&self, y: int) -> bool {
        self.min <= y < self.max
    }

    /// The span that takes `other` in: it reaches over both intervals. It takes the
    /// prevailing tag of the two where its top is at most `threshold` above the top of
    /// `other`, and keeps its own tag otherwise.
    pub open spec fn spec_absorb(self, other: Span, threshold: u32) -> Span {
        let top = if self.max >= other.max {
            self.max
        } else {
            other.max
        };
        Span {
            min: if self.min <= other.min {
                self.min
            } else {
                other.min
            },
            max: top,
            area: if top - other.max <= threshold {
                self.area.spec_prevailing(other.area)
            } else {
                self.area
            },
        }
    }

    /// Takes `other` into this span.
    pub fn absorb(self, other: Span, threshold: u32) -> (r: Span)
        ensures
            r == self.spec_absorb(other, threshold),
    {
        let top = if self.max >= other.max {
            self.max
        } else {
            other.max
        };
        let low = if self.min <= other.min {
            self.min
        } else {
            other.min
        };
        let area = if (top - other.max) as u32 <= threshold {
            self.area.prevailing(other.area)
        } else {
            self.area
        };
        Span { min: low, max: top, area }
    }
}

/// The spans of a column are valid, ordered from low to high, and do not touch.
pub open spec fn column_wf(col: Seq<Span>) -> bool {
    &&& forall|i: int| 0 <= i < col.len() ==> (#[trigger] col[i]).wf()
    &&& forall|i: int, j: int| 0 <= i < j < col.len() ==> (#[trigger] col[i]).max < (#[trigger] col[j]).min
}

/// The column after a span is inserted: spans that overlap or touch the new one are taken
/// into it, from low to high; the others stay as they are.
pub open spec fn spec_insert(col: Seq<Span>, span: Span, threshold: u32) -> Seq<Span>
    decreases col.len(),
{
    if col.len() == 0 {
        seq![span]
    } else if col[0].min > span.max {
        seq![span] + col
    } else if col[0].max < span.min {
        seq![col[0]] + spec_insert(col.drop_first(), span, threshold)
    } else {
        spec_insert(col.drop_first(), span.spec_absorb(col[0], threshold), threshold)
    }
}

/// The height `y` lies in one of the spans of the column.
pub open spec fn column_covers(col: Seq<Span>, y: int) -> bool {
    exists|i: int| 0 <= i < col.len() && (#[trigger] col[i]).spec_covers(y)
}

/// Inserting a valid span into a well-formed column leaves the column well-formed, and no
/// span of the new column starts at or below a height that all the given spans start above.
pub proof fn lemma_insert_wf(col: Seq<Span>, span: Span, threshold: u32, floor: int)
    requires
        column_wf(col),
        span.wf(),
        span.min > floor,
        forall|i: int| 0 <= i < col.len() ==> (#[trigger] col[i]).min > floor,
    ensures
        column_wf(spec_insert(col, span, threshold)),
        forall|i: int|
            0 <= i < spec_insert(col, span, threshold).len() ==> (#[trigger] spec_insert(
                col,
                span,
                threshold,
            )[i]).min > floor,
    decreases col.len(),
{
    let result = spec_insert(col, span, threshold);
    if col.len() == 0 {
    } else if col[0].min > span.max {
        assert forall|i: int, j: int| 0 <= i < j < result.len() implies (#[trigger] result[i]).max
            < (#[trigger] result[j]).min by {
            if i == 0 {
                assert(result[j] == col[j - 1]);
                if j - 1 > 0 {
                    assert(col[0].max < col[j - 1].min);
                }
            } else {
                assert(result[i] == col[i - 1]);
                assert(result[j] == col[j - 1]);
            }
        }
    } else {
        let rest = col.drop_first();
        assert forall|i: int| 0 <= i < rest.len() implies (#[trigger] rest[i]).wf() by {
            assert(rest[i] == col[i + 1]);
        }
        assert forall|i: int, j: int| 0 <= i < j < rest.len() implies (#[trigger] rest[i]).max < (
        #[trigger] rest[j]).min by {
            assert(rest[i] == col[i + 1]);
            assert(rest[j] == col[j + 1]);
        }
        if col[0].max < span.min {
            assert forall|i: int| 0 <= i < rest.len() implies (#[trigger] rest[i]).min
                > col[0].max by {
                assert(rest[i] == col[i + 1]);
            }
            lemma_insert_wf(rest, span, threshold, col[0].max as int);
            let tail = spec_insert(rest, span, threshold);
            assert forall|i: int| 0 <= i < result.len() implies (#[trigger] result[i]).wf()
                && result[i].min > floor by {
                if i > 0 {
                    assert(result[i] == tail[i - 1]);
                }
            }
            assert forall|i: int, j: int| 0 <= i < j < result.len() implies (
            #[trigger] result[i]).max < (#[trigger] result[j]).min by {
                assert(result[j] == tail[j - 1]);
                if i > 0 {
                    assert(result[i] == tail[i - 1]);
                }
            }
        } else {
            assert forall|i: int| 0 <= i < rest.len() implies (#[trigger] rest[i]).min > floor by {
                assert(rest[i] == col[i + 1]);
            }
            lemma_insert_wf(rest, span.spec_absorb(col[0], threshold), threshold, floor);
        }
    }
}

/// A column covers, after an insertion, exactly the heights that it covered before and the
/// heights of the inserted span.
pub proof fn lemma_insert_covers(col: Seq<Span>, span: Span, threshold: u32, y: int)
    requires
        span.min <= span.max,
    ensures
        column_covers(spec_insert(col, span, threshold), y) <==> column_covers(col, y)
            || span.spec_covers(y),
    decreases col.len(),
{
    let result = spec_insert(col, span, threshold);
    if col.len() == 0 {
        if span.spec_covers(y) {
            assert(result[0].spec_covers(y));
        }
    } else {
        let rest = col.drop_first();
        assert(column_covers(col, y) <==> col[0].spec_covers(y) || column_covers(rest, y)) by {
            if column_covers(col, y) {
                let i = choose|i: int| 0 <= i < col.len() && (#[trigger] col[i]).spec_covers(y);
                if i > 0 {
                    assert(rest[i - 1].spec_covers(y));
                }
            }
            if column_covers(rest, y) {
                let i = choose|i: int| 0 <= i < rest.len() && (#[trigger] rest[i]).spec_covers(y);
                assert(col[i + 1].spec_covers(y));
            }
            if col[0].spec_covers(y) {
            }
        }
        if col[0].min > span.max {
            if column_covers(result, y) {
                let i = choose|i: int|
                    0 <= i < result.len() && (#[trigger] result[i]).spec_covers(y);
                if i > 0 {
                    assert(col[i - 1].spec_covers(y));
                }
            }
            if span.spec_covers(y) {
                assert(result[0].spec_covers(y));
            }
            if column_covers(col, y) {
                let i = choose|i: int| 0 <= i < col.len() && (#[trigger] col[i]).spec_covers(y);
                assert(result[i + 1].spec_covers(y));
            }
        } else if col[0].max < span.min {
            lemma_insert_covers(rest, span, threshold, y);
            let tail = spec_insert(rest, span, threshold);
            if column_covers(result, y) {
                let i = choose|i: int|
                    0 <= i < result.len() && (#[trigger] result[i]).spec_covers(y);
                if i > 0 {
                    assert(tail[i - 1].spec_covers(y));
                }
            }
            if column_covers(tail, y) {
                let i = choose|i: int| 0 <= i < tail.len() && (#[trigger] tail[i]).spec_covers(y);
                assert(result[i + 1].spec_covers(y));
            }
            if col[0].spec_covers(y) {
                assert(result[0].spec_covers(y));
            }
        } else {
            lemma_insert_covers(rest, span.spec_absorb(col[0], threshold), threshold, y);
        }
    }
}

/// Tests whether the spans of a column are valid, ordered from low to high, and do not touch.
pub fn column_is_valid(col: &Vec<Span>) -> (r: bool)
    ensures
        r == column_wf(col@),
{
    let n = col.len();
    let mut i: usize = 0;
    while i < n
        invariant
            n == col@.len(),
            i <= n,
            column_wf(col@.take(i as int)),
        decreases n - i,
    {
        if !col[i].is_valid() {
            return false;
        }
        if i > 0 && col[i - 1].max >= col[i].min {
            return false;
        }
        proof {
            let before = col@.take(i as int);
            let after = col@.take(i + 1);
            assert forall|j: int, k: int| 0 <= j < k < after.len() implies (#[trigger] after[j]).max
                < (#[trigger] after[k]).min by {
                if k < i {
                    assert(before[j] == after[j] && before[k] == after[k]);
                } else if j < i - 1 {
                    assert(before[j] == after[j] && before[i - 1] == after[i - 1]);
                    assert(before[i - 1].wf());
                }
            }
            assert forall|j: int| 0 <= j < after.len() implies (#[trigger] after[j]).wf() by {
                if j < i {
                    assert(before[j] == after[j]);
                }
            }
        }
        i = i + 1;
    }
    proof {
        assert(col@.take(n as int) =~= col@);
    }
    true
}

/// Inserts a span into a column, merging it with the spans that it overlaps or touches.
pub fn insert_span(col: &Vec<Span>, span: Span, threshold: u32) -> (r: Vec<Span>)
    ensures
        r@ == spec_insert(col@, span, threshold),
{
    let n = col.len();
    let mut out: Vec<Span> = Vec::new();
    let mut pending = span;
    let mut i: usize = 0;
    proof {
        assert(col@.skip(0) =~= col@);
        assert(out@ + spec_insert(col@, span, threshold) =~= spec_insert(col@, span, threshold));
    }
    while i < n && col[i].min <= pending.max
        invariant
            n == col@.len(),
            i <= n,
            spec_insert(col@, span, threshold) == out@ + spec_insert(
                col@.skip(i as int),
                pending,
                threshold,
            ),
        decreases n - i,
    {
        let cur = col[i];
        proof {
            assert(col@.skip(i as int)[0] == cur);
            assert(col@.skip(i as int).drop_first() =~= col@.skip(i + 1));
        }
        let ghost before = out@;
        let ghost tail = spec_insert(col@.skip(i + 1), pending, threshold);
        if cur.max < pending.min {
            out.push(cur);
            assert(out@ + tail =~= before + (seq![cur] + tail));
        } else {
            pending = pending.absorb(cur, threshold);
        }
        i = i + 1;
    }
    proof {
        if i < n {
            assert(col@.skip(i as int)[0] == col@[i as int]);
        }
    }
    let ghost head = out@;
    out.push(pending);
    let start = i;
    while i < n
        invariant
            n == col@.len(),
            start <= i <= n,
            out@ == head + seq![pending] + col@.subrange(start as int, i as int),
        decreases n - i,
    {
        out.push(col[i]);
        assert(col@.subrange(start as int, i + 1) =~= col@.subrange(start as int, i as int).push(
            col@[i as int],
        ));
        i = i + 1;
    }
    proof {
        assert(col@.subrange(start as int, n as int) =~= col@.skip(start as int));
        if start < n {
            assert(out@ =~= head + (seq![pending] + col@.skip(start as int)));
        } else {
            assert(out@ =~= head + seq![pending]);
        }
    }
    out
}

} // verus!
