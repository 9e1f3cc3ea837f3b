//! Font fallback chains.
//!
//! A chain asks each face in turn and takes the first that covers a
//! codepoint, so a CJK glyph in a Latin UI renders instead of showing tofu.
//! Coverage is asked of the face, never guessed from the Unicode block: a
//! good CJK face contains Latin, and a Latin face routinely contains Greek.
//!
//! `split` groups a string into the longest spans that share one face,
//! because a span is the unit a shaper shapes.

use core::ops::Range;
use vstd::prelude::*;
use vstd::std_specs::iter::IteratorSpec;
use vstd::utf8::{encode_scalar, encode_utf8};
use crate::text::encoding::{char_len_utf8, lemma_encode_utf8_push, lemma_encode_utf8_prefix_len};

verus! {

/// Whether a face can render a codepoint.
pub trait FaceCoverage {
    /// Whether this face has a glyph for `ch`, as a plain value.
    spec fn spec_covers(&self, ch: char) -> bool;

    /// Whether this face has a glyph for `ch`.
    fn covers(&self, ch: char) -> (b: bool)
        ensures
            b == self.spec_covers(ch),
    ;
}

/// Whether `r` holds `code`.
pub open spec fn range_holds(r: Range<u32>, code: u32) -> bool {
    r.start <= code < r.end
}

/// Whether some range of `ranges` holds `code`.
pub open spec fn in_some_range(ranges: Seq<Range<u32>>, code: u32) -> bool {
    exists|i: int| 0 <= i < ranges.len() && #[trigger] range_holds(ranges[i], code)
}

/// Whether `ranges` are sorted, each non-inverted, and pairwise disjoint.
pub open spec fn sorted_disjoint(ranges: Seq<Range<u32>>) -> bool {
    &&& forall|i: int| 0 <= i < ranges.len() ==> #[trigger] ranges[i].start <= ranges[i].end
    &&& forall|i: int, j: int|
        0 <= i < j < ranges.len() ==> #[trigger] ranges[i].end <= #[trigger] ranges[j].start
}

/// Whether two lists of ranges cover the same codepoints.
pub open spec fn same_coverage(a: Seq<Range<u32>>, b: Seq<Range<u32>>) -> bool {
    forall|c: u32| #[trigger] in_some_range(a, c) == in_some_range(b, c)
}

/// A range covers nothing more, or less, once it is appended.
proof fn lemma_in_some_range_push(s: Seq<Range<u32>>, r: Range<u32>, c: u32)
    ensures
        in_some_range(s.push(r), c) == (in_some_range(s, c) || range_holds(r, c)),
{
    if in_some_range(s, c) {
        let i = choose|i: int| 0 <= i < s.len() && #[trigger] range_holds(s[i], c);
        assert(s.push(r)[i] == s[i]);
    }
    if range_holds(r, c) {
        assert(s.push(r)[s.len() as int] == r);
    }
    if in_some_range(s.push(r), c) {
        let i = choose|i: int| 0 <= i < s.push(r).len() && #[trigger] range_holds(s.push(r)[i], c);
        if i < s.len() {
            assert(s.push(r)[i] == s[i]);
        }
    }
}

/// Swapping two ranges covers the same codepoints.
proof fn lemma_swap_keeps_coverage(s: Seq<Range<u32>>, j: int, c: u32)
    requires
        0 < j < s.len(),
    ensures
        in_some_range(s.update(j - 1, s[j]).update(j, s[j - 1]), c) == in_some_range(s, c),
{
    let t = s.update(j - 1, s[j]).update(j, s[j - 1]);
    if in_some_range(s, c) {
        let i = choose|i: int| 0 <= i < s.len() && #[trigger] range_holds(s[i], c);
        let k = if i == j { j - 1 } else if i == j - 1 { j } else { i };
        assert(t[k] == s[i]);
    }
    if in_some_range(t, c) {
        let i = choose|i: int| 0 <= i < t.len() && #[trigger] range_holds(t[i], c);
        let k = if i == j { j - 1 } else if i == j - 1 { j } else { i };
        assert(s[k] == t[i]);
    }
}

/// A face's coverage as a list of codepoint ranges.
#[derive(Debug)]
pub struct CoverageSet {
    /// Ranges of covered codepoints, sorted and pairwise disjoint.
    ranges: Vec<Range<u32>>,
}

impl View for CoverageSet {
    type V = Seq<Range<u32>>;

    closed spec fn view(&self) -> Seq<Range<u32>> {
        self.ranges@
    }
}

impl Clone for CoverageSet {
    fn clone(&self) -> (c: Self)
        ensures
            c@ == self@,
    {
        proof {
            use_type_invariant(self);
        }
        let mut ranges: Vec<Range<u32>> = Vec::new();
        let mut i: usize = 0;
        while i < self.ranges.len()
            invariant
                i <= self.ranges@.len(),
                ranges@ == self.ranges@.take(i as int),
            decreases self.ranges@.len() - i,
        {
            ranges.push(self.ranges[i].start..self.ranges[i].end);
            assert(ranges@ =~= self.ranges@.take(i + 1));
            i = i + 1;
        }
        assert(ranges@ =~= self.ranges@);
        CoverageSet { ranges }
    }
}

impl Default for CoverageSet {
    fn default() -> (set: Self)
        ensures
            set@ == Seq::<Range<u32>>::empty(),
    {
        CoverageSet { ranges: Vec::new() }
    }
}

impl CoverageSet {
    #[verifier::type_invariant]
    spec fn well_formed(self) -> bool {
        sorted_disjoint(self.ranges@)
    }

    /// A set covering exactly `ranges`, given in any order, overlapping or
    /// not; an inverted range covers nothing. The set keeps them sorted and
    /// merged, and is empty exactly when no range was given.
    pub fn new(ranges: Vec<Range<u32>>) -> (set: Self)
        ensures
            sorted_disjoint(set@),
            same_coverage(set@, ranges@),
            set@.len() == 0 <==> ranges@.len() == 0,
    {
        let n = ranges.len();
        if n == 0 {
            return CoverageSet { ranges: Vec::new() };
        }
        // Each range with an inverted end replaced by an empty one.
        let mut sorted: Vec<Range<u32>> = Vec::new();
        let mut i: usize = 0;
        while i < n
            invariant
                i <= n == ranges@.len(),
                sorted@.len() == i,
                forall|k: int| 0 <= k < i ==> #[trigger] sorted@[k].start <= sorted@[k].end,
                forall|c: u32| #[trigger] in_some_range(sorted@, c) == in_some_range(ranges@.take(i as int), c),
            decreases n - i,
        {
            let r = ranges[i].start..ranges[i].end;
            let end = if r.end < r.start { r.start } else { r.end };
            let ghost before = sorted@;
            sorted.push(r.start..end);
            proof {
                assert(ranges@.take(i + 1) =~= ranges@.take(i as int).push(ranges@[i as int]));
                assert forall|c: u32| #[trigger] in_some_range(sorted@, c) == in_some_range(
                    ranges@.take(i + 1),
                    c,
                ) by {
                    lemma_in_some_range_push(before, r.start..end, c);
                    lemma_in_some_range_push(ranges@.take(i as int), ranges@[i as int], c);
                }
            }
            i = i + 1;
        }
        assert(ranges@.take(n as int) =~= ranges@);
        // Insertion sort by start.
        let mut i: usize = 1;
        while i < n
            invariant
                1 <= i <= n,
                n == sorted@.len(),
                forall|k: int| 0 <= k < n ==> #[trigger] sorted@[k].start <= sorted@[k].end,
                forall|c: u32| #[trigger] in_some_range(sorted@, c) == in_some_range(ranges@, c),
                forall|a: int, b: int| 0 <= a < b < i ==> #[trigger] sorted@[a].start <= #[trigger] sorted@[b].start,
            decreases n - i,
        {
            let mut j: usize = i;
            while j > 0 && sorted[j - 1].start > sorted[j].start
                invariant
                    0 <= j <= i < n,
                    n == sorted@.len(),
                    forall|k: int| 0 <= k < n ==> #[trigger] sorted@[k].start <= sorted@[k].end,
                    forall|c: u32| #[trigger] in_some_range(sorted@, c) == in_some_range(ranges@, c),
                    forall|a: int, b: int|
                        0 <= a < b < j ==> #[trigger] sorted@[a].start <= #[trigger] sorted@[b].start,
                    forall|a: int, b: int|
                        j <= a < b <= i ==> #[trigger] sorted@[a].start <= #[trigger] sorted@[b].start,
                    forall|a: int, b: int|
                        0 <= a < j && j < b <= i ==> #[trigger] sorted@[a].start <= #[trigger] sorted@[b].start,
                decreases j,
            {
                let lower = sorted[j - 1].start..sorted[j - 1].end;
                let upper = sorted[j].start..sorted[j].end;
                let ghost before = sorted@;
                sorted.set(j - 1, upper);
                sorted.set(j, lower);
                proof {
                    assert(sorted@ =~= before.update(j - 1, before[j as int]).update(j as int, before[j - 1]));
                    assert forall|c: u32| #[trigger] in_some_range(sorted@, c) == in_some_range(ranges@, c) by {
                        lemma_swap_keeps_coverage(before, j as int, c);
                    }
                }
                j = j - 1;
            }
            proof {
                assert forall|a: int, b: int|
                    0 <= a < b <= i implies #[trigger] sorted@[a].start <= #[trigger] sorted@[b].start by {
                    if a < j && b == j {
                        if a < j - 1 {
                            assert(sorted@[a].start <= sorted@[j - 1].start);
                        }
                    }
                }
            }
            i = i + 1;
        }
        // Merge ranges that overlap or touch.
        let mut out: Vec<Range<u32>> = Vec::new();
        let mut lo = sorted[0].start;
        let mut hi = sorted[0].end;
        proof {
            assert(sorted@.take(1) =~= Seq::<Range<u32>>::empty().push(sorted@[0]));
            assert(out@.push(lo..hi) =~= Seq::<Range<u32>>::empty().push(sorted@[0]));
        }
        let mut i: usize = 1;
        while i < n
            invariant
                1 <= i <= n == sorted@.len(),
                forall|k: int| 0 <= k < n ==> #[trigger] sorted@[k].start <= sorted@[k].end,
                forall|a: int, b: int| 0 <= a < b < n ==> #[trigger] sorted@[a].start <= #[trigger] sorted@[b].start,
                forall|k: int| i <= k < n ==> lo <= #[trigger] sorted@[k].start,
                lo <= hi,
                sorted_disjoint(out@),
                forall|k: int| 0 <= k < out@.len() ==> #[trigger] out@[k].end <= lo,
                forall|c: u32| #[trigger] in_some_range(out@.push(lo..hi), c) == in_some_range(sorted@.take(i as int), c),
            decreases n - i,
        {
            let r = sorted[i].start..sorted[i].end;
            let ghost block = lo..hi;
            let ghost prefix = out@;
            proof {
                assert(sorted@.take(i + 1) =~= sorted@.take(i as int).push(sorted@[i as int]));
            }
            if r.start <= hi {
                if r.end > hi {
                    hi = r.end;
                }
                proof {
                    assert forall|c: u32| #[trigger] in_some_range(out@.push(lo..hi), c) == in_some_range(
                        sorted@.take(i + 1),
                        c,
                    ) by {
                        lemma_in_some_range_push(prefix, lo..hi, c);
                        lemma_in_some_range_push(prefix, block, c);
                        lemma_in_some_range_push(sorted@.take(i as int), sorted@[i as int], c);
                    }
                }
            } else {
                out.push(lo..hi);
                proof {
                    assert forall|a: int, b: int| 0 <= a < b < out@.len() implies #[trigger] out@[a].end
                        <= #[trigger] out@[b].start by {
                        if b < prefix.len() {
                            assert(out@[a] == prefix[a]);
                            assert(out@[b] == prefix[b]);
                        } else {
                            assert(out@[a] == prefix[a]);
                        }
                    }
                }
                lo = r.start;
                hi = r.end;
                proof {
                    assert forall|c: u32| #[trigger] in_some_range(out@.push(lo..hi), c) == in_some_range(
                        sorted@.take(i + 1),
                        c,
                    ) by {
                        lemma_in_some_range_push(out@, lo..hi, c);
                        lemma_in_some_range_push(prefix, block, c);
                        lemma_in_some_range_push(sorted@.take(i as int), sorted@[i as int], c);
                    }
                }
            }
            i = i + 1;
        }
        assert(sorted@.take(n as int) =~= sorted@);
        let ghost prefix = out@;
        out.push(lo..hi);
        proof {
            assert forall|a: int, b: int| 0 <= a < b < out@.len() implies #[trigger] out@[a].end
                <= #[trigger] out@[b].start by {
                assert(out@[a] == prefix[a]);
                if b < prefix.len() {
                    assert(out@[b] == prefix[b]);
                }
            }
            assert forall|c: u32| #[trigger] in_some_range(out@, c) == in_some_range(ranges@, c) by {
                assert(in_some_range(sorted@, c) == in_some_range(ranges@, c));
            }
        }
        CoverageSet { ranges: out }
    }

    /// Basic Latin plus Latin-1 and the general punctuation block: what the
    /// bundled cuts actually cover.
    pub fn latin() -> (set: Self)
        ensures
            set@ == seq![0x0020u32..0x0250u32, 0x2000u32..0x2100u32],
            sorted_disjoint(set@),
    {
        let ranges = vec![0x0020..0x0250, 0x2000..0x2100];
        assert(ranges@ =~= seq![0x0020u32..0x0250u32, 0x2000u32..0x2100u32]);
        CoverageSet { ranges }
    }

    /// Whether anything is covered.
    pub fn is_empty(&self) -> (b: bool)
        ensures
            b == (self@.len() == 0),
    {
        self.ranges.len() == 0
    }
}

impl FaceCoverage for CoverageSet {
    /// Some range holds the codepoint.
    open spec fn spec_covers(&self, ch: char) -> bool {
        in_some_range(self@, ch as u32)
    }

    fn covers(&self, ch: char) -> (b: bool) {
        proof {
            use_type_invariant(self);
        }
        let code = ch as u32;
        let b = binary_search_ranges(&self.ranges, code);
        proof {
            lemma_lookup_exact(self@, code);
        }
        b
    }
}

/// What the bisecting lookup over `ranges` answers for `code`.
pub open spec fn coverage_lookup(ranges: Seq<Range<u32>>, code: u32) -> bool {
    lookup_between(ranges, code, 0, ranges.len() as int)
}

/// The bisecting lookup between `lo` and `hi`: probe the middle range, stop
/// when it holds `code`, otherwise continue left of it when `code` lies
/// below its start and right of it otherwise.
pub open spec fn lookup_between(ranges: Seq<Range<u32>>, code: u32, lo: int, hi: int) -> bool
    decreases hi - lo,
{
    if lo >= hi || lo < 0 || hi > ranges.len() {
        false
    } else {
        let mid = lo + (hi - lo) / 2;
        if code < ranges[mid].start {
            lookup_between(ranges, code, lo, mid)
        } else if code >= ranges[mid].end {
            lookup_between(ranges, code, mid + 1, hi)
        } else {
            true
        }
    }
}

proof fn lemma_lookup_sound(ranges: Seq<Range<u32>>, code: u32, lo: int, hi: int)
    ensures
        lookup_between(ranges, code, lo, hi) ==> in_some_range(ranges, code),
    decreases hi - lo,
{
    if lo < hi && lo >= 0 && hi <= ranges.len() {
        let mid = lo + (hi - lo) / 2;
        if code < ranges[mid].start {
            lemma_lookup_sound(ranges, code, lo, mid);
        } else if code >= ranges[mid].end {
            lemma_lookup_sound(ranges, code, mid + 1, hi);
        } else {
            assert(range_holds(ranges[mid], code));
        }
    }
}

proof fn lemma_lookup_complete(ranges: Seq<Range<u32>>, code: u32, lo: int, hi: int, k: int)
    requires
        sorted_disjoint(ranges),
        0 <= lo <= k < hi <= ranges.len(),
        range_holds(ranges[k], code),
    ensures
        lookup_between(ranges, code, lo, hi),
    decreases hi - lo,
{
    let mid = lo + (hi - lo) / 2;
    if code < ranges[mid].start {
        if k >= mid {
            if k > mid {
                assert(ranges[mid].end <= ranges[k].start);
            }
        }
        lemma_lookup_complete(ranges, code, lo, mid, k);
    } else if code >= ranges[mid].end {
        if k <= mid {
            if k < mid {
                assert(ranges[k].end <= ranges[mid].start);
            }
        }
        lemma_lookup_complete(ranges, code, mid + 1, hi, k);
    }
}

/// On well-formed ranges the lookup answers exactly whether a range holds
/// the codepoint.
proof fn lemma_lookup_exact(ranges: Seq<Range<u32>>, code: u32)
    requires
        sorted_disjoint(ranges),
    ensures
        coverage_lookup(ranges, code) == in_some_range(ranges, code),
{
    lemma_lookup_sound(ranges, code, 0, ranges.len() as int);
    if in_some_range(ranges, code) {
        let k = choose|k: int| 0 <= k < ranges.len() && #[trigger] range_holds(ranges[k], code);
        lemma_lookup_complete(ranges, code, 0, ranges.len() as int, k);
    }
}

fn binary_search_ranges(ranges: &Vec<Range<u32>>, code: u32) -> (b: bool)
    ensures
        b == coverage_lookup(ranges@, code),
{
    let mut lo: usize = 0;
    let mut hi: usize = ranges.len();
    while lo < hi
        invariant
            0 <= lo <= hi <= ranges.len(),
            coverage_lookup(ranges@, code) == lookup_between(ranges@, code, lo as int, hi as int),
        decreases hi - lo,
    {
        let mid = lo + (hi - lo) / 2;
        if code < ranges[mid].start {
            hi = mid;
        } else if code >= ranges[mid].end {
            lo = mid + 1;
        } else {
            return true;
        }
    }
    false
}

/// The first face of `faces` covering `ch`, by id.
pub open spec fn first_covering<F: FaceCoverage>(faces: Seq<(u8, F)>, ch: char) -> Option<u8>
    decreases faces.len(),
{
    if faces.len() == 0 {
        None
    } else if faces[0].1.spec_covers(ch) {
        Some(faces[0].0)
    } else {
        first_covering(faces.drop_first(), ch)
    }
}

/// The spans `split` produces for `chars`: walking the characters in order,
/// a character whose face matches the last span's extends it, and any other
/// starts a new span. Ranges are byte ranges of the UTF-8 encoding.
pub open spec fn spans_of<F: FaceCoverage>(faces: Seq<(u8, F)>, chars: Seq<char>) -> Seq<
    (Range<usize>, Option<u8>),
>
    decreases chars.len(),
{
    if chars.len() == 0 {
        Seq::empty()
    } else {
        let prev = spans_of(faces, chars.drop_last());
        let ch = chars.last();
        let face = first_covering(faces, ch);
        let start = encode_utf8(chars.drop_last()).len() as usize;
        let end = (start + encode_scalar(ch as u32).len()) as usize;
        if prev.len() > 0 && prev.last().1 == face {
            prev.update(prev.len() - 1, (prev.last().0.start..end, face))
        } else {
            prev.push((start..end, face))
        }
    }
}

/// An ordered list of faces to try.
pub struct FallbackChain<F> {
    faces: Vec<(u8, F)>,
}

impl<F> View for FallbackChain<F> {
    type V = Seq<(u8, F)>;

    closed spec fn view(&self) -> Seq<(u8, F)> {
        self.faces@
    }
}

impl<F> Default for FallbackChain<F> {
    fn default() -> (chain: Self)
        ensures
            chain@ == Seq::<(u8, F)>::empty(),
    {
        FallbackChain { faces: Vec::new() }
    }
}

impl<F: FaceCoverage> FallbackChain<F> {
    /// An empty chain.
    pub fn new() -> (chain: Self)
        ensures
            chain@ == Seq::<(u8, F)>::empty(),
    {
        FallbackChain { faces: Vec::new() }
    }

    /// Append a face. Order is priority order.
    pub fn push(&mut self, font_id: u8, coverage: F)
        ensures
            final(self)@ == old(self)@.push((font_id, coverage)),
    {
        self.faces.push((font_id, coverage));
    }

    /// How many faces are in the chain.
    pub fn len(&self) -> (n: usize)
        ensures
            n == self@.len(),
    {
        self.faces.len()
    }

    /// Whether the chain is empty.
    pub fn is_empty(&self) -> (b: bool)
        ensures
            b == (self@.len() == 0),
    {
        self.faces.len() == 0
    }

    /// The first face covering `ch`, or `None` when none does.
    ///
    /// `None` is genuinely tofu, and the caller should render it as such
    /// rather than substituting a space: a missing glyph the player can see
    /// gets reported.
    pub fn face_for(&self, ch: char) -> (face: Option<u8>)
        ensures
            face == first_covering(self@, ch),
    {
        let mut i: usize = 0;
        assert(self@.skip(0) =~= self@);
        while i < self.faces.len()
            invariant
                i <= self.faces.len(),
                first_covering(self@, ch) == first_covering(self@.skip(i as int), ch),
            decreases self.faces.len() - i,
        {
            proof {
                assert(self@.skip(i as int).drop_first() =~= self@.skip(i as int + 1));
            }
            if self.faces[i].1.covers(ch) {
                return Some(self.faces[i].0);
            }
            i = i + 1;
        }
        None
    }

    /// Split `text` into the longest spans that share one face.
    ///
    /// Ranges are byte ranges into `text` on char boundaries. A span whose
    /// face is `None` is tofu and is kept as its own span.
    pub fn split(&self, text: &str) -> (spans: Vec<(Range<usize>, Option<u8>)>)
        ensures
            spans@ == spans_of(self@, text@),
    {
        broadcast use vstd::string::group_string_axioms, vstd::slice::group_slice_axioms;

        let total = text.as_bytes().len();
        let mut spans: Vec<(Range<usize>, Option<u8>)> = Vec::new();
        let mut chars = text.chars();
        let mut offset: usize = 0;
        let ghost mut seen: int = 0;
        proof {
            assert(text@.skip(0) =~= text@);
            assert(text@.take(0) =~= Seq::<char>::empty());
        }
        loop
            invariant
                0 <= seen <= text@.len(),
                chars.remaining() == text@.skip(seen),
                offset == encode_utf8(text@.take(seen)).len(),
                encode_utf8(text@).len() == total,
                spans@ == spans_of(self@, text@.take(seen)),
            decreases text@.len() - seen,
        {
            match chars.next() {
                Some(ch) => {
                    let face = self.face_for(ch);
                    let width = char_len_utf8(ch);
                    proof {
                        assert(text@.skip(seen).drop_first() =~= text@.skip(seen + 1));
                        assert(text@.take(seen + 1) =~= text@.take(seen).push(ch));
                        assert(text@.take(seen + 1).drop_last() =~= text@.take(seen));
                        lemma_encode_utf8_push(text@.take(seen), ch);
                        lemma_encode_utf8_prefix_len(text@, seen + 1);
                    }
                    let end = offset + width;
                    let n = spans.len();
                    if n > 0 && spans[n - 1].1 == face {
                        let start = spans[n - 1].0.start;
                        spans.set(n - 1, (start..end, face));
                    } else {
                        spans.push((offset..end, face));
                    }
                    offset = end;
                    proof {
                        seen = seen + 1;
                    }
                },
                None => {
                    proof {
                        assert(text@.take(seen) =~= text@);
                    }
                    return spans;
                },
            }
        }
    }
}

/// The byte offset where the `k`-th character of `chars` starts.
pub open spec fn byte_offset(chars: Seq<char>, k: int) -> int {
    encode_utf8(chars.take(k)).len() as int
}

/// Whether `b` is a character boundary of `chars`' encoding.
pub open spec fn on_char_boundary(chars: Seq<char>, b: int) -> bool {
    exists|k: int| 0 <= k <= chars.len() && #[trigger] byte_offset(chars, k) == b
}

/// `split` produces the longest spans it can: the spans tile the encoding
/// from byte 0 to its end with no gap and no overlap, none is empty, and no
/// two neighbours share a face (else they would have been one span). Empty
/// text gives no spans.
pub proof fn lemma_split_spans_are_maximal<F: FaceCoverage>(faces: Seq<(u8, F)>, chars: Seq<char>)
    requires
        encode_utf8(chars).len() <= usize::MAX,
    ensures
        ({
            let spans = spans_of(faces, chars);
            &&& (spans.len() == 0 <==> chars.len() == 0)
            &&& spans.len() > 0 ==> spans[0].0.start == 0
            &&& spans.len() > 0 ==> spans.last().0.end == encode_utf8(chars).len()
            &&& forall|k: int| 0 <= k < spans.len() ==> #[trigger] spans[k].0.start < spans[k].0.end
            &&& forall|k: int|
                0 <= k < spans.len() - 1 ==> #[trigger] spans[k].0.end == spans[k + 1].0.start
            &&& forall|k: int| 0 <= k < spans.len() - 1 ==> #[trigger] spans[k].1 != spans[k + 1].1
        }),
    decreases chars.len(),
{
    if chars.len() > 0 {
        let init = chars.drop_last();
        let ch = chars.last();
        assert(chars =~= init.push(ch));
        crate::text::encoding::lemma_encode_utf8_push(init, ch);
        vstd::utf8::char_is_scalar(ch);
        assert(encode_utf8(init).len() + encode_scalar(ch as u32).len() == encode_utf8(chars).len());
        lemma_split_spans_are_maximal(faces, init);
        let prev = spans_of(faces, init);
        let face = first_covering(faces, ch);
        if prev.len() > 0 && prev.last().1 == face {
            let spans = prev.update(prev.len() - 1, (prev.last().0.start..(encode_utf8(init).len() + encode_scalar(ch as u32).len()) as usize, face));
            assert(spans_of(faces, chars) == spans);
            assert forall|k: int| 0 <= k < spans.len() - 1 implies #[trigger] spans[k].1 != spans[k + 1].1 by {
                assert(prev[k].1 != prev[k + 1].1);
            }
        } else {
            let start = encode_utf8(init).len() as usize;
            let spans = prev.push((start..(start + encode_scalar(ch as u32).len()) as usize, face));
            assert(spans_of(faces, chars) == spans);
            assert forall|k: int| 0 <= k < spans.len() - 1 implies #[trigger] spans[k].0.end == spans[k + 1].0.start by {
                if k < prev.len() - 1 {
                    assert(prev[k].0.end == prev[k + 1].0.start);
                }
            }
            assert forall|k: int| 0 <= k < spans.len() - 1 implies #[trigger] spans[k].1 != spans[k + 1].1 by {
                if k < prev.len() - 1 {
                    assert(prev[k].1 != prev[k + 1].1);
                }
            }
        }
    }
}

/// Every span boundary `split` produces falls between two characters, so
/// slicing the text by a span never splits a character.
pub proof fn lemma_split_ranges_are_char_boundaries<F: FaceCoverage>(faces: Seq<(u8, F)>, chars: Seq<char>)
    requires
        encode_utf8(chars).len() <= usize::MAX,
    ensures
        forall|k: int|
            0 <= k < spans_of(faces, chars).len() ==> on_char_boundary(chars, #[trigger] spans_of(faces, chars)[k].0.start as int)
                && on_char_boundary(chars, spans_of(faces, chars)[k].0.end as int),
    decreases chars.len(),
{
    if chars.len() > 0 {
        let init = chars.drop_last();
        let ch = chars.last();
        assert(chars =~= init.push(ch));
        crate::text::encoding::lemma_encode_utf8_push(init, ch);
        vstd::utf8::char_is_scalar(ch);
        assert(encode_utf8(init).len() + encode_scalar(ch as u32).len() == encode_utf8(chars).len());
        lemma_split_ranges_are_char_boundaries(faces, init);
        let prev = spans_of(faces, init);
        let spans = spans_of(faces, chars);
        let face = first_covering(faces, ch);
        let start = encode_utf8(init).len();
        let end = start + encode_scalar(ch as u32).len();
        assert(chars.take(chars.len() as int) =~= chars);
        assert(byte_offset(chars, chars.len() as int) == end);
        assert(chars.take(init.len() as int) =~= init);
        assert(byte_offset(chars, init.len() as int) == start);
        assert forall|b: int| on_char_boundary(init, b) implies on_char_boundary(chars, b) by {
            let k = choose|k: int| 0 <= k <= init.len() && #[trigger] byte_offset(init, k) == b;
            assert(chars.take(k) =~= init.take(k));
            assert(byte_offset(chars, k) == b);
        }
        assert(on_char_boundary(chars, end as usize as int)) by {
            assert(byte_offset(chars, chars.len() as int) == end);
        }
        assert(on_char_boundary(chars, start as usize as int)) by {
            assert(byte_offset(chars, init.len() as int) == start);
        }
        assert forall|k: int| 0 <= k < spans.len() implies on_char_boundary(
            chars,
            #[trigger] spans[k].0.start as int,
        ) && on_char_boundary(chars, spans[k].0.end as int) by {
            if k < prev.len() {
                assert(on_char_boundary(init, prev[k].0.start as int));
                assert(on_char_boundary(init, prev[k].0.end as int));
            }
        }
    }
}

/// Codepoint ranges worth having a face for, in the order a chain should
/// try.
///
/// Ordering only: coverage is asked of the face. These exist so that a
/// chain assembled from a font directory puts the scripts a UI is most
/// likely to need before those it is least likely to, rather than in
/// directory order.
pub const SCRIPT_PRIORITY: [(&'static str, Range<u32>); 14] = [
    ("Latin", 0x0020..0x0250),
    ("Greek", 0x0370..0x0400),
    ("Cyrillic", 0x0400..0x0500),
    ("Hebrew", 0x0590..0x0600),
    ("Arabic", 0x0600..0x0700),
    ("Devanagari", 0x0900..0x0980),
    ("Thai", 0x0E00..0x0E80),
    ("Hangul Jamo", 0x1100..0x1200),
    ("CJK Symbols", 0x3000..0x3040),
    ("Hiragana", 0x3040..0x30A0),
    ("Katakana", 0x30A0..0x3100),
    ("CJK Unified", 0x4E00..0xA000),
    ("Hangul Syllables", 0xAC00..0xD7B0),
    ("Emoji", 0x1F300..0x1FAFF),
];

/// The priority table's ranges are in ascending order and do not overlap.
pub proof fn lemma_script_priority_is_ordered()
    ensures
        forall|i: int|
            0 <= i < 13 ==> (#[trigger] SCRIPT_PRIORITY@[i]).1.end <= SCRIPT_PRIORITY@[i + 1].1.start,
        forall|i: int| 0 <= i < 14 ==> (#[trigger] SCRIPT_PRIORITY@[i]).1.start < SCRIPT_PRIORITY@[i].1.end,
{
}

} // verus!
