//! Searching the contents of memory regions for byte patterns and values.
//!
//! Reading a process's memory is left to the caller. A search takes what
//! the reads gave: for each region its bytes, or nothing if the read failed.

use crate::exact::{close_enough, within_tolerance};
use crate::ieee::{encode_le_i32, le_byte, le_u32, twos_complement, F32Bits};
use crate::memory::{MemoryEngine, MemoryRegion, RegionView};
use vstd::prelude::*;

verus! {

/// A place at which a pattern was found.
#[derive(Debug, Clone)]
pub struct PatternMatch {
    pub address: u64,
    pub region_start: u64,
    pub offset_in_region: u64,
    pub matched_bytes: Vec<u8>,
}

/// A match with its bytes as a sequence.
pub struct MatchView {
    pub address: u64,
    pub region_start: u64,
    pub offset_in_region: u64,
    pub matched_bytes: Seq<u8>,
}

impl View for PatternMatch {
    type V = MatchView;

    open spec fn view(&self) -> MatchView {
        MatchView {
            address: self.address,
            region_start: self.region_start,
            offset_in_region: self.offset_in_region,
            matched_bytes: self.matched_bytes@,
        }
    }
}

/// The matches with their bytes as sequences.
pub open spec fn match_views(ms: Seq<PatternMatch>) -> Seq<MatchView> {
    Seq::new(ms.len(), |i: int| ms[i]@)
}

/// What reading each region gave.
pub open spec fn contents_of(data: Seq<Option<Vec<u8>>>) -> Seq<Option<Seq<u8>>> {
    Seq::new(
        data.len(),
        |i: int|
            match data[i] {
                Some(b) => Some(b@),
                None => None,
            },
    )
}

/// The pattern lies in `buf` at offset `i`: every byte that the mask marks
/// agrees.
pub open spec fn fits(buf: Seq<u8>, pattern: Seq<u8>, mask: Seq<bool>, i: int) -> bool {
    &&& 0 <= i
    &&& i + pattern.len() <= buf.len()
    &&& forall|j: int| 0 <= j < pattern.len() && mask[j] ==> #[trigger] buf[i + j] == pattern[j]
}

/// The match of `len` bytes at offset `i` of a region that starts at `start`.
pub open spec fn hit(start: u64, buf: Seq<u8>, len: int, i: int) -> MatchView {
    MatchView {
        address: (start + i) as u64,
        region_start: start,
        offset_in_region: i as u64,
        matched_bytes: buf.subrange(i, i + len),
    }
}

/// The matches at offsets below `n`, by offset.
pub open spec fn hits(start: u64, buf: Seq<u8>, pattern: Seq<u8>, mask: Seq<bool>, n: int) -> Seq<
    MatchView,
>
    decreases n,
{
    if n <= 0 {
        Seq::empty()
    } else {
        let rest = hits(start, buf, pattern, mask, n - 1);
        if fits(buf, pattern, mask, n - 1) {
            rest.push(hit(start, buf, pattern.len() as int, n - 1))
        } else {
            rest
        }
    }
}

/// The aligned word at index `k` of `buf` is a finite value within
/// `tolerance` of `value`.
pub open spec fn word_fits(buf: Seq<u8>, value: F32Bits, tolerance: F32Bits, k: int) -> bool {
    let v = F32Bits {
        bits: le_u32(buf[4 * k], buf[4 * k + 1], buf[4 * k + 2], buf[4 * k + 3]) as u32,
    };
    &&& 0 <= k
    &&& 4 * k + 4 <= buf.len()
    &&& within_tolerance(v, value, tolerance)
}

/// The matching aligned words at indices below `n`, by index.
pub open spec fn word_hits(start: u64, buf: Seq<u8>, value: F32Bits, tolerance: F32Bits, n: int)
    -> Seq<MatchView>
    decreases n,
{
    if n <= 0 {
        Seq::empty()
    } else {
        let rest = word_hits(start, buf, value, tolerance, n - 1);
        if word_fits(buf, value, tolerance, n - 1) {
            rest.push(hit(start, buf, 4, 4 * (n - 1)))
        } else {
            rest
        }
    }
}

/// `found` followed by `more`, cut off at `limit` matches.
pub open spec fn capped(found: Seq<MatchView>, more: Seq<MatchView>, limit: int) -> Seq<MatchView> {
    let all = found + more;
    if all.len() <= limit {
        all
    } else if limit <= 0 {
        Seq::empty()
    } else {
        all.take(limit)
    }
}

/// What a search for bytes or words looks for.
pub enum Target {
    /// The pattern, at any offset; a byte counts only where the mask is set.
    Bytes { pattern: Seq<u8>, mask: Seq<bool> },
    /// A finite single-precision value within `tolerance` of `value`, at any
    /// offset that is a multiple of four.
    Word { value: F32Bits, tolerance: F32Bits },
}

impl Target {
    /// Least size of a region that is worth reading.
    pub open spec fn least_size(self) -> int {
        match self {
            Target::Bytes { pattern, mask } => 1,
            Target::Word { value, tolerance } => 4,
        }
    }

    /// All matches in the contents `buf` of a region that starts at `start`.
    pub open spec fn all_hits(self, start: u64, buf: Seq<u8>) -> Seq<MatchView> {
        match self {
            Target::Bytes { pattern, mask } => hits(
                start,
                buf,
                pattern,
                mask,
                buf.len() - pattern.len() + 1,
            ),
            Target::Word { value, tolerance } => word_hits(
                start,
                buf,
                value,
                tolerance,
                buf.len() as int / 4,
            ),
        }
    }
}

/// The region is to be read: the limit is not reached, and the region is
/// readable and large enough.
pub open spec fn wanted(found: int, r: RegionView, target: Target, limit: int) -> bool {
    found < limit && r.readable() && r.size() >= target.least_size()
}

/// The matches after one more region: unchanged if the region is not to be
/// read or the read failed, otherwise extended by the region's matches up to
/// the limit.
pub open spec fn after_region(
    found: Seq<MatchView>,
    r: RegionView,
    data: Option<Seq<u8>>,
    target: Target,
    limit: int,
) -> Seq<MatchView> {
    if !wanted(found.len() as int, r, target, limit) {
        found
    } else {
        match data {
            Some(buf) => capped(found, target.all_hits(r.start_addr, buf), limit),
            None => found,
        }
    }
}

/// The matches after the first `n` regions.
pub open spec fn search_result(
    regions: Seq<RegionView>,
    contents: Seq<Option<Seq<u8>>>,
    target: Target,
    limit: int,
    n: int,
) -> Seq<MatchView>
    decreases n,
{
    if n <= 0 {
        Seq::empty()
    } else {
        after_region(
            search_result(regions, contents, target, limit, n - 1),
            regions[n - 1],
            contents[n - 1],
            target,
            limit,
        )
    }
}

/// The contents fit the regions: where a region was read, as many bytes
/// were read as the region has.
pub open spec fn contents_fit(regions: Seq<RegionView>, contents: Seq<Option<Seq<u8>>>) -> bool {
    &&& contents.len() == regions.len()
    &&& forall|i: int|
        0 <= i < regions.len() ==> (#[trigger] regions[i]).wf() && (contents[i] matches Some(b)
            ==> b.len() == regions[i].size())
}

/// A mask that marks every byte.
pub open spec fn full_mask(n: nat) -> Seq<bool> {
    Seq::new(n, |i: int| true)
}

proof fn lemma_hits_grow(
    start: u64,
    buf: Seq<u8>,
    pattern: Seq<u8>,
    mask: Seq<bool>,
    m: int,
    n: int,
)
    requires
        0 <= m <= n,
    ensures
        hits(start, buf, pattern, mask, m).len() <= hits(start, buf, pattern, mask, n).len(),
        hits(start, buf, pattern, mask, n).take(hits(start, buf, pattern, mask, m).len() as int)
            == hits(start, buf, pattern, mask, m),
    decreases n - m,
{
    let a = hits(start, buf, pattern, mask, m);
    if m == n {
        assert(a.take(a.len() as int) =~= a);
    } else {
        lemma_hits_grow(start, buf, pattern, mask, m, n - 1);
        let b = hits(start, buf, pattern, mask, n - 1);
        let c = hits(start, buf, pattern, mask, n);
        assert(c.take(a.len() as int) =~= b.take(a.len() as int));
    }
}

proof fn lemma_word_hits_grow(
    start: u64,
    buf: Seq<u8>,
    value: F32Bits,
    tolerance: F32Bits,
    m: int,
    n: int,
)
    requires
        0 <= m <= n,
    ensures
        word_hits(start, buf, value, tolerance, m).len() <= word_hits(
            start,
            buf,
            value,
            tolerance,
            n,
        ).len(),
        word_hits(start, buf, value, tolerance, n).take(
            word_hits(start, buf, value, tolerance, m).len() as int,
        ) == word_hits(start, buf, value, tolerance, m),
    decreases n - m,
{
    let a = word_hits(start, buf, value, tolerance, m);
    if m == n {
        assert(a.take(a.len() as int) =~= a);
    } else {
        lemma_word_hits_grow(start, buf, value, tolerance, m, n - 1);
        let b = word_hits(start, buf, value, tolerance, n - 1);
        let c = word_hits(start, buf, value, tolerance, n);
        assert(c.take(a.len() as int) =~= b.take(a.len() as int));
    }
}

/// A search never returns more matches than the limit.
pub proof fn lemma_search_within_limit(
    regions: Seq<RegionView>,
    contents: Seq<Option<Seq<u8>>>,
    target: Target,
    limit: int,
    n: int,
)
    requires
        0 <= limit,
    ensures
        search_result(regions, contents, target, limit, n).len() <= limit,
    decreases n,
{
    if n > 0 {
        lemma_search_within_limit(regions, contents, target, limit, n - 1);
    }
}

/// A pattern that lies at the very start of a region is the first match in
/// that region, at the region's base address.
pub proof fn lemma_match_at_base(start: u64, buf: Seq<u8>, pattern: Seq<u8>, mask: Seq<bool>)
    requires
        fits(buf, pattern, mask, 0),
    ensures
        hits(start, buf, pattern, mask, buf.len() - pattern.len() + 1).len() >= 1,
        hits(start, buf, pattern, mask, buf.len() - pattern.len() + 1)[0] == hit(
            start,
            buf,
            pattern.len() as int,
            0,
        ),
        hit(start, buf, pattern.len() as int, 0).address == start,
{
    let n = buf.len() - pattern.len() + 1;
    lemma_hits_grow(start, buf, pattern, mask, 1, n);
    let one = hits(start, buf, pattern, mask, 1);
    assert(hits(start, buf, pattern, mask, 0).len() == 0);
    assert(one =~= seq![hit(start, buf, pattern.len() as int, 0)]);
    let all = hits(start, buf, pattern, mask, n);
    assert(all.take(1)[0] == all[0]);
}

fn copy_range(buf: &[u8], from: usize, len: usize) -> (out: Vec<u8>)
    requires
        from + len <= buf@.len(),
    ensures
        out@ == buf@.subrange(from as int, from + len),
{
    let mut out: Vec<u8> = Vec::new();
    let total: usize = buf.len();
    let mut j: usize = 0;
    while j < len
        invariant
            j <= len,
            total == buf@.len(),
            from + len <= buf@.len(),
            out@.len() == j,
            forall|k: int| 0 <= k < j ==> out@[k] == buf@[from + k],
        decreases len - j,
    {
        out.push(buf[from + j]);
        j = j + 1;
    }
    proof {
        assert(out@ =~= buf@.subrange(from as int, from + len));
    }
    out
}

fn fits_at(buf: &[u8], pattern: &[u8], mask: &[bool], i: usize) -> (b: bool)
    requires
        mask@.len() == pattern@.len(),
        i + pattern@.len() <= buf@.len(),
    ensures
        b == fits(buf@, pattern@, mask@, i as int),
{
    let n: usize = pattern.len();
    let total: usize = buf.len();
    let mut j: usize = 0;
    while j < n
        invariant
            j <= n,
            n == pattern@.len(),
            mask@.len() == n,
            total == buf@.len(),
            i + n <= buf@.len(),
            forall|k: int| 0 <= k < j && mask@[k] ==> #[trigger] buf@[i + k] == pattern@[k],
        decreases n - j,
    {
        if mask[j] && buf[i + j] != pattern[j] {
            return false;
        }
        j = j + 1;
    }
    true
}

impl MemoryEngine {
    /// Whether a byte-pattern search should read `region` next: there is
    /// room for more matches, and the region is readable and not empty.
    pub fn wants_region(found: usize, region: &MemoryRegion, limit: usize) -> (b: bool)
        requires
            region@.wf(),
        ensures
            forall|pattern: Seq<u8>, mask: Seq<bool>|
                b == #[trigger] wanted(
                    found as int,
                    region@,
                    Target::Bytes { pattern, mask },
                    limit as int,
                ),
    {
        found < limit && region.is_readable() && region.size() != 0
    }

    /// Whether a value search should read `region` next: there is room for
    /// more matches, and the region is readable and holds at least one word.
    pub fn wants_words(found: usize, region: &MemoryRegion, limit: usize) -> (b: bool)
        requires
            region@.wf(),
        ensures
            forall|value: F32Bits, tolerance: F32Bits|
                b == #[trigger] wanted(
                    found as int,
                    region@,
                    Target::Word { value, tolerance },
                    limit as int,
                ),
    {
        found < limit && region.is_readable() && region.size() >= 4
    }

    /// Scans the bytes read from one region for the pattern and appends the
    /// matches, up to the limit. A region that is not wanted, or whose read
    /// failed, adds nothing.
    pub fn scan_region(
        matches: &mut Vec<PatternMatch>,
        region: &MemoryRegion,
        data: Option<&[u8]>,
        pattern: &[u8],
        mask: &[bool],
        limit: usize,
    )
        requires
            pattern@.len() > 0,
            mask@.len() == pattern@.len(),
            region@.wf(),
            data matches Some(b) ==> b@.len() == region@.size(),
        ensures
            match_views(final(matches)@) == after_region(
                match_views(old(matches)@),
                region@,
                match data {
                    Some(b) => Some(b@),
                    None => None,
                },
                Target::Bytes { pattern: pattern@, mask: mask@ },
                limit as int,
            ),
    {
        let ghost found = match_views(matches@);
        let ghost target = Target::Bytes { pattern: pattern@, mask: mask@ };
        if !Self::wants_region(matches.len(), region, limit) {
            proof {
                assert(!wanted(found.len() as int, region@, target, limit as int));
            }
            return ;
        }
        proof {
            assert(wanted(found.len() as int, region@, target, limit as int));
        }
        let buf: &[u8] = match data {
            Some(b) => b,
            None => {
                return ;
            },
        };
        let start: u64 = region.start_addr;
        let n: usize = pattern.len();
        if buf.len() < n {
            proof {
                assert(hits(start, buf@, pattern@, mask@, buf@.len() - n + 1) =~= Seq::<
                    MatchView,
                >::empty());
                assert(found + Seq::<MatchView>::empty() =~= found);
            }
            return ;
        }
        let total: usize = buf.len();
        let last: usize = total - n;
        let mut i: usize = 0;
        while i <= last
            invariant
                i <= last + 1,
                n == pattern@.len(),
                n > 0,
                mask@.len() == n,
                total == buf@.len(),
                last == total - n,
                data == Some(buf),
                target == (Target::Bytes { pattern: pattern@, mask: mask@ }),
                found == match_views(old(matches)@),
                wanted(found.len() as int, region@, target, limit as int),
                buf@.len() == region@.size(),
                region@.wf(),
                start == region.start_addr,
                found.len() < limit,
                match_views(matches@) == found + hits(start, buf@, pattern@, mask@, i as int),
                match_views(matches@).len() < limit,
            decreases last + 1 - i,
        {
            let ghost sofar = match_views(matches@);
            if fits_at(buf, pattern, mask, i) {
                let m = PatternMatch {
                    address: start + i as u64,
                    region_start: start,
                    offset_in_region: i as u64,
                    matched_bytes: copy_range(buf, i, n),
                };
                matches.push(m);
                proof {
                    assert(m@ == hit(start, buf@, n as int, i as int));
                    assert(match_views(matches@) =~= sofar.push(m@));
                    assert(match_views(matches@) =~= found + hits(
                        start,
                        buf@,
                        pattern@,
                        mask@,
                        i + 1,
                    ));
                }
                if matches.len() >= limit {
                    proof {
                        let all = hits(start, buf@, pattern@, mask@, last + 1);
                        let part = hits(start, buf@, pattern@, mask@, i + 1);
                        lemma_hits_grow(start, buf@, pattern@, mask@, i + 1, last + 1);
                        assert((found + all).take(limit as int) =~= found + part);
                    }
                    return ;
                }
            }
            i = i + 1;
        }
    }

    /// Scans the bytes read from one region, in steps of four, for finite
    /// single-precision values within `tolerance` of `value`, and appends
    /// the matches, up to the limit.
    pub fn scan_words(
        matches: &mut Vec<PatternMatch>,
        region: &MemoryRegion,
        data: Option<&[u8]>,
        value: F32Bits,
        tolerance: F32Bits,
        limit: usize,
    )
        requires
            region@.wf(),
            data matches Some(b) ==> b@.len() == region@.size(),
        ensures
            match_views(final(matches)@) == after_region(
                match_views(old(matches)@),
                region@,
                match data {
                    Some(b) => Some(b@),
                    None => None,
                },
                Target::Word { value, tolerance },
                limit as int,
            ),
    {
        let ghost found = match_views(matches@);
        let ghost target = Target::Word { value, tolerance };
        if !Self::wants_words(matches.len(), region, limit) {
            proof {
                assert(!wanted(found.len() as int, region@, target, limit as int));
            }
            return ;
        }
        proof {
            assert(wanted(found.len() as int, region@, target, limit as int));
        }
        let buf: &[u8] = match data {
            Some(b) => b,
            None => {
                return ;
            },
        };
        let start: u64 = region.start_addr;
        let total: usize = buf.len();
        let words: usize = total / 4;
        let mut k: usize = 0;
        while k < words
            invariant
                k <= words,
                total == buf@.len(),
                words == total / 4,
                data == Some(buf),
                target == (Target::Word { value, tolerance }),
                found == match_views(old(matches)@),
                wanted(found.len() as int, region@, target, limit as int),
                buf@.len() == region@.size(),
                region@.wf(),
                start == region.start_addr,
                found.len() < limit,
                match_views(matches@) == found + word_hits(start, buf@, value, tolerance, k as int),
                match_views(matches@).len() < limit,
            decreases words - k,
        {
            let ghost sofar = match_views(matches@);
            let at: usize = 4 * k;
            let v = F32Bits::read_le(buf, at);
            if close_enough(&v, &value, &tolerance) {
                let m = PatternMatch {
                    address: start + at as u64,
                    region_start: start,
                    offset_in_region: at as u64,
                    matched_bytes: copy_range(buf, at, 4),
                };
                matches.push(m);
                proof {
                    assert(word_fits(buf@, value, tolerance, k as int));
                    assert(m@ == hit(start, buf@, 4, 4 * k));
                    assert(match_views(matches@) =~= sofar.push(m@));
                    assert(match_views(matches@) =~= found + word_hits(
                        start,
                        buf@,
                        value,
                        tolerance,
                        k + 1,
                    ));
                }
                if matches.len() >= limit {
                    proof {
                        let all = word_hits(start, buf@, value, tolerance, words as int);
                        let part = word_hits(start, buf@, value, tolerance, k + 1);
                        lemma_word_hits_grow(start, buf@, value, tolerance, k + 1, words as int);
                        assert((found + all).take(limit as int) =~= found + part);
                    }
                    return ;
                }
            } else {
                proof {
                    assert(!word_fits(buf@, value, tolerance, k as int));
                }
            }
            k = k + 1;
        }
    }
}


/// The four bytes of a signed 32-bit number, least significant first.
pub open spec fn int32_pattern(v: i32) -> Seq<u8> {
    Seq::new(4, |i: int| le_byte(twos_complement(v), i) as u8)
}

/// Searching a readable region whose contents begin with the bytes of `v`
/// for `v` gives a first match at the base of the region.
pub proof fn lemma_int32_found_at_base(r: RegionView, buf: Seq<u8>, v: i32, limit: int)
    requires
        limit >= 1,
        r.wf(),
        r.readable(),
        buf.len() == r.size(),
        buf.len() >= 4,
        forall|i: int| 0 <= i < 4 ==> buf[i] == le_byte(twos_complement(v), i),
    ensures
        ({
            let found = search_result(
                seq![r],
                seq![Some(buf)],
                Target::Bytes { pattern: int32_pattern(v), mask: full_mask(4) },
                limit,
                1,
            );
            found.len() >= 1 && found[0].address == r.start_addr && found[0].matched_bytes
                == int32_pattern(v)
        }),
{
    let pattern = int32_pattern(v);
    let mask = full_mask(4);
    let target = Target::Bytes { pattern, mask };
    assert(fits(buf, pattern, mask, 0));
    lemma_match_at_base(r.start_addr, buf, pattern, mask);
    let none = search_result(seq![r], seq![Some(buf)], target, limit, 0);
    assert(none.len() == 0);
    let all = target.all_hits(r.start_addr, buf);
    assert((none + all) =~= all);
    assert(all[0].matched_bytes =~= pattern);
    if all.len() > limit {
        assert(all.take(limit)[0] == all[0]);
    }
}

impl MemoryEngine {
    fn search_bytes(
        contents: &[Option<Vec<u8>>],
        pattern: &[u8],
        mask: &[bool],
        regions: &[MemoryRegion],
        limit: usize,
    ) -> (out: Vec<PatternMatch>)
        requires
            pattern@.len() > 0,
            mask@.len() == pattern@.len(),
            contents_fit(crate::memory::views(regions@), contents_of(contents@)),
        ensures
            match_views(out@) == search_result(
                crate::memory::views(regions@),
                contents_of(contents@),
                Target::Bytes { pattern: pattern@, mask: mask@ },
                limit as int,
                regions@.len() as int,
            ),
            out@.len() <= limit,
    {
        let ghost rs = crate::memory::views(regions@);
        let ghost cs = contents_of(contents@);
        let ghost target = Target::Bytes { pattern: pattern@, mask: mask@ };
        let mut out: Vec<PatternMatch> = Vec::new();
        let mut i: usize = 0;
        proof {
            assert(match_views(out@) =~= search_result(rs, cs, target, limit as int, 0));
        }
        while i < regions.len()
            invariant
                i <= regions@.len(),
                pattern@.len() > 0,
                mask@.len() == pattern@.len(),
                rs == crate::memory::views(regions@),
                cs == contents_of(contents@),
                contents_fit(rs, cs),
                target == (Target::Bytes { pattern: pattern@, mask: mask@ }),
                match_views(out@) == search_result(rs, cs, target, limit as int, i as int),
            decreases regions@.len() - i,
        {
            proof {
                assert(rs[i as int].wf());
                assert(rs[i as int] == regions@[i as int]@);
            }
            let data: Option<&[u8]> = match &contents[i] {
                Some(b) => Some(b.as_slice()),
                None => None,
            };
            Self::scan_region(&mut out, &regions[i], data, pattern, mask, limit);
            i = i + 1;
        }
        proof {
            lemma_search_within_limit(rs, cs, target, limit as int, regions@.len() as int);
        }
        out
    }

    /// Searches the regions in order for the pattern, each readable region
    /// that is not empty by the bytes read from it, and stops at `limit`
    /// matches. Regions whose read failed are passed over.
    pub fn search_pattern(
        contents: &[Option<Vec<u8>>],
        pattern: &[u8],
        regions: &[MemoryRegion],
        limit: usize,
    ) -> (out: Result<Vec<PatternMatch>, String>)
        requires
            pattern@.len() > 0,
            contents_fit(crate::memory::views(regions@), contents_of(contents@)),
        ensures
            out matches Ok(found) && match_views(found@) == search_result(
                crate::memory::views(regions@),
                contents_of(contents@),
                Target::Bytes { pattern: pattern@, mask: full_mask(pattern@.len()) },
                limit as int,
                regions@.len() as int,
            ) && found@.len() <= limit,
    {
        let mut mask: Vec<bool> = Vec::new();
        let mut i: usize = 0;
        while i < pattern.len()
            invariant
                i <= pattern@.len(),
                mask@.len() == i,
                forall|j: int| 0 <= j < i ==> mask@[j],
            decreases pattern@.len() - i,
        {
            mask.push(true);
            i = i + 1;
        }
        proof {
            assert(mask@ =~= full_mask(pattern@.len()));
        }
        Ok(Self::search_bytes(contents, pattern, mask.as_slice(), regions, limit))
    }

    /// Like `search_pattern`, but a byte of the pattern counts only where
    /// the mask is set. A mask of another length than the pattern is an
    /// error.
    pub fn search_pattern_masked(
        contents: &[Option<Vec<u8>>],
        pattern: &[u8],
        mask: &[bool],
        regions: &[MemoryRegion],
        limit: usize,
    ) -> (out: Result<Vec<PatternMatch>, String>)
        requires
            pattern@.len() == mask@.len() ==> pattern@.len() > 0,
            contents_fit(crate::memory::views(regions@), contents_of(contents@)),
        ensures
            pattern@.len() != mask@.len() ==> (out matches Err(e) && e@
                == "Pattern and mask length mismatch"@),
            pattern@.len() == mask@.len() ==> (out matches Ok(found) && match_views(found@)
                == search_result(
                crate::memory::views(regions@),
                contents_of(contents@),
                Target::Bytes { pattern: pattern@, mask: mask@ },
                limit as int,
                regions@.len() as int,
            ) && found@.len() <= limit),
    {
        if pattern.len() != mask.len() {
            return Err("Pattern and mask length mismatch".to_owned());
        }
        Ok(Self::search_bytes(contents, pattern, mask, regions, limit))
    }

    /// Searches for the four bytes of a 32-bit number.
    pub fn search_int32(
        contents: &[Option<Vec<u8>>],
        value: i32,
        regions: &[MemoryRegion],
        limit: usize,
    ) -> (out: Result<Vec<PatternMatch>, String>)
        requires
            contents_fit(crate::memory::views(regions@), contents_of(contents@)),
        ensures
            out matches Ok(found) && match_views(found@) == search_result(
                crate::memory::views(regions@),
                contents_of(contents@),
                Target::Bytes { pattern: int32_pattern(value), mask: full_mask(4) },
                limit as int,
                regions@.len() as int,
            ) && found@.len() <= limit,
    {
        let pattern = encode_le_i32(value);
        proof {
            assert(pattern@ =~= int32_pattern(value));
        }
        Self::search_pattern(contents, pattern.as_slice(), regions, limit)
    }

    /// Searches the regions in order, in steps of four bytes, for finite
    /// single-precision values that differ from `value` by at most
    /// `tolerance`, each readable region of at least four bytes by the
    /// bytes read from it, and stops at `limit` matches.
    pub fn search_float32(
        contents: &[Option<Vec<u8>>],
        value: F32Bits,
        tolerance: F32Bits,
        regions: &[MemoryRegion],
        limit: usize,
    ) -> (out: Result<Vec<PatternMatch>, String>)
        requires
            contents_fit(crate::memory::views(regions@), contents_of(contents@)),
        ensures
            out matches Ok(found) && match_views(found@) == search_result(
                crate::memory::views(regions@),
                contents_of(contents@),
                Target::Word { value, tolerance },
                limit as int,
                regions@.len() as int,
            ) && found@.len() <= limit,
    {
        let ghost rs = crate::memory::views(regions@);
        let ghost cs = contents_of(contents@);
        let ghost target = Target::Word { value, tolerance };
        let mut found: Vec<PatternMatch> = Vec::new();
        let mut i: usize = 0;
        proof {
            assert(match_views(found@) =~= search_result(rs, cs, target, limit as int, 0));
        }
        while i < regions.len()
            invariant
                i <= regions@.len(),
                rs == crate::memory::views(regions@),
                cs == contents_of(contents@),
                contents_fit(rs, cs),
                target == (Target::Word { value, tolerance }),
                match_views(found@) == search_result(rs, cs, target, limit as int, i as int),
            decreases regions@.len() - i,
        {
            proof {
                assert(rs[i as int].wf());
                assert(rs[i as int] == regions@[i as int]@);
            }
            let data: Option<&[u8]> = match &contents[i] {
                Some(b) => Some(b.as_slice()),
                None => None,
            };
            Self::scan_words(&mut found, &regions[i], data, value, tolerance, limit);
            i = i + 1;
        }
        proof {
            lemma_search_within_limit(rs, cs, target, limit as int, regions@.len() as int);
        }
        Ok(found)
    }
}

} // verus!
