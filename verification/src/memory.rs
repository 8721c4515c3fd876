//! Regions of a process's address space: the lines of the mappings file,
//! what a region's fields say about it, and which regions are worth
//! scanning.

use crate::text::{
    chars_of, contains_seq, join_spaced, parse_number, parse_u64, str_contains, str_equal,
    token_spans, tokens,
};
use vstd::prelude::*;
use vstd::string::StringExecFns;
use vstd::string::StrSliceExecFns;

verus! {

/// One mapping of a process: the address range from `start_addr` up to but
/// not including `end_addr`, the permission flags, and what backs it.
#[derive(Debug, Clone)]
pub struct MemoryRegion {
    pub start_addr: u64,
    pub end_addr: u64,
    pub permissions: String,
    pub offset: u64,
    pub device: String,
    pub inode: u64,
    pub pathname: String,
}

/// A region with its texts as sequences of characters.
pub struct RegionView {
    pub start_addr: u64,
    pub end_addr: u64,
    pub permissions: Seq<char>,
    pub offset: u64,
    pub device: Seq<char>,
    pub inode: u64,
    pub pathname: Seq<char>,
}

impl View for MemoryRegion {
    type V = RegionView;

    open spec fn view(&self) -> RegionView {
        RegionView {
            start_addr: self.start_addr,
            end_addr: self.end_addr,
            permissions: self.permissions@,
            offset: self.offset,
            device: self.device@,
            inode: self.inode,
            pathname: self.pathname@,
        }
    }
}

impl RegionView {
    /// The region does not end before it starts.
    pub open spec fn wf(self) -> bool {
        self.start_addr <= self.end_addr
    }

    /// The first permission flag is `r`.
    pub open spec fn readable(self) -> bool {
        self.permissions.len() > 0 && self.permissions[0] == 'r'
    }

    /// The second permission flag is `w`.
    pub open spec fn writable(self) -> bool {
        self.permissions.len() > 1 && self.permissions[1] == 'w'
    }

    /// The third permission flag is `x`.
    pub open spec fn executable(self) -> bool {
        self.permissions.len() > 2 && self.permissions[2] == 'x'
    }

    /// Number of bytes in the region.
    pub open spec fn size(self) -> int {
        self.end_addr - self.start_addr
    }

    /// The path contains `[heap]`.
    pub open spec fn heap(self) -> bool {
        contains_seq(self.pathname, "[heap]"@)
    }

    /// The path contains `[stack]`.
    pub open spec fn stack(self) -> bool {
        contains_seq(self.pathname, "[stack]"@)
    }

    /// The region has no path, or the path `[anon]`.
    pub open spec fn anonymous(self) -> bool {
        self.pathname.len() == 0 || self.pathname == "[anon]"@
    }

    /// A region in which a game is likely to keep its state: readable and
    /// writable, anonymous or heap, and more than 4 KiB but less than
    /// 512 MiB in size.
    pub open spec fn game_like(self) -> bool {
        self.readable() && self.writable() && (self.anonymous() || self.heap()) && 4096
            < self.size() < 512 * 1024 * 1024
    }
}

/// The views of a sequence of regions.
pub open spec fn views(rs: Seq<MemoryRegion>) -> Seq<RegionView> {
    Seq::new(rs.len(), |i: int| rs[i]@)
}

/// The texts of a sequence of strings.
pub open spec fn texts(ls: Seq<String>) -> Seq<Seq<char>> {
    Seq::new(ls.len(), |i: int| ls[i]@)
}

/// The only dash of `t` is at index `i`.
pub open spec fn splits_at(t: Seq<char>, i: int) -> bool {
    &&& 0 <= i < t.len()
    &&& t[i] == '-'
    &&& forall|j: int| 0 <= j < t.len() && j != i ==> #[trigger] t[j] != '-'
}

/// What a line of the mappings file says: `start-end perms offset device
/// inode` and optionally a path, separated by white space. Start and end are
/// hexadecimal, and a line without them is no region. Offset (hexadecimal)
/// and inode (decimal) count as 0 if they cannot be read. The path is
/// everything after the fifth column, joined by single spaces.
pub open spec fn parse_line(line: Seq<char>) -> Option<RegionView> {
    let parts = tokens(line);
    if parts.len() < 5 {
        None
    } else if !(exists|i: int| splits_at(parts[0], i)) {
        None
    } else {
        let i = choose|i: int| splits_at(parts[0], i);
        let start = parse_u64(parts[0].subrange(0, i), 16);
        let end = parse_u64(parts[0].subrange(i + 1, parts[0].len() as int), 16);
        if start is Some && end is Some {
            Some(
                RegionView {
                    start_addr: start.unwrap(),
                    end_addr: end.unwrap(),
                    permissions: parts[1],
                    offset: match parse_u64(parts[2], 16) {
                        Some(v) => v,
                        None => 0,
                    },
                    device: parts[3],
                    inode: match parse_u64(parts[4], 10) {
                        Some(v) => v,
                        None => 0,
                    },
                    pathname: join_spaced(parts.subrange(5, parts.len() as int)),
                },
            )
        } else {
            None
        }
    }
}

/// The regions that the lines describe, in order; lines that describe none
/// are passed over.
pub open spec fn parse_lines(lines: Seq<Seq<char>>) -> Seq<RegionView>
    decreases lines.len(),
{
    if lines.len() == 0 {
        Seq::empty()
    } else {
        match parse_line(lines.last()) {
            Some(r) => parse_lines(lines.drop_last()).push(r),
            None => parse_lines(lines.drop_last()),
        }
    }
}

/// The game-like regions among `rs`, in order.
pub open spec fn game_regions(rs: Seq<RegionView>) -> Seq<RegionView>
    decreases rs.len(),
{
    if rs.len() == 0 {
        Seq::empty()
    } else if rs.last().game_like() {
        game_regions(rs.drop_last()).push(rs.last())
    } else {
        game_regions(rs.drop_last())
    }
}

/// The regions among `rs` whose path contains `name`, in order.
pub open spec fn library_regions(rs: Seq<RegionView>, name: Seq<char>) -> Seq<RegionView>
    decreases rs.len(),
{
    if rs.len() == 0 {
        Seq::empty()
    } else if contains_seq(rs.last().pathname, name) {
        library_regions(rs.drop_last(), name).push(rs.last())
    } else {
        library_regions(rs.drop_last(), name)
    }
}

impl MemoryRegion {
    /// A copy of the region.
    pub fn duplicate(&self) -> (r: MemoryRegion)
        ensures
            r@ == self@,
    {
        MemoryRegion {
            start_addr: self.start_addr,
            end_addr: self.end_addr,
            permissions: self.permissions.clone(),
            offset: self.offset,
            device: self.device.clone(),
            inode: self.inode,
            pathname: self.pathname.clone(),
        }
    }

    fn flag_is(&self, at: usize, flag: char) -> (b: bool)
        ensures
            b == (self.permissions@.len() > at && self.permissions@[at as int] == flag),
    {
        let p = chars_of(self.permissions.as_str());
        p.len() > at && p[at] == flag
    }

    /// The first permission flag is `r`.
    pub fn is_readable(&self) -> (b: bool)
        ensures
            b == self@.readable(),
    {
        self.flag_is(0, 'r')
    }

    /// The second permission flag is `w`.
    pub fn is_writable(&self) -> (b: bool)
        ensures
            b == self@.writable(),
    {
        self.flag_is(1, 'w')
    }

    /// The third permission flag is `x`.
    pub fn is_executable(&self) -> (b: bool)
        ensures
            b == self@.executable(),
    {
        self.flag_is(2, 'x')
    }

    /// Number of bytes in the region.
    pub fn size(&self) -> (n: u64)
        requires
            self@.wf(),
        ensures
            n == self@.size(),
    {
        self.end_addr - self.start_addr
    }

    /// The path contains `[heap]`.
    pub fn is_heap(&self) -> (b: bool)
        ensures
            b == self@.heap(),
    {
        str_contains(self.pathname.as_str(), "[heap]")
    }

    /// The path contains `[stack]`.
    pub fn is_stack(&self) -> (b: bool)
        ensures
            b == self@.stack(),
    {
        str_contains(self.pathname.as_str(), "[stack]")
    }

    /// The region has no path, or the path `[anon]`.
    pub fn is_anonymous(&self) -> (b: bool)
        ensures
            b == self@.anonymous(),
    {
        let p = chars_of(self.pathname.as_str());
        p.len() == 0 || str_equal(self.pathname.as_str(), "[anon]")
    }
}

/// Namespace of the scanner's functions.
pub struct MemoryEngine;

/// The index of the only dash among the characters from `a` up to `b`, if
/// there is exactly one.
fn find_dash(s: &Vec<char>, a: usize, b: usize) -> (r: Option<usize>)
    requires
        a <= b <= s@.len(),
    ensures
        match r {
            Some(i) => a <= i < b && splits_at(s@.subrange(a as int, b as int), i - a),
            None => forall|i: int| !splits_at(s@.subrange(a as int, b as int), i),
        },
{
    let ghost t = s@.subrange(a as int, b as int);
    let mut i: usize = a;
    while i < b && s[i] != '-'
        invariant
            a <= i <= b <= s@.len(),
            t == s@.subrange(a as int, b as int),
            forall|k: int| 0 <= k < i - a ==> #[trigger] t[k] != '-',
        decreases b - i,
    {
        proof {
            assert(t[i - a] == s@[i as int]);
        }
        i = i + 1;
    }
    if i == b {
        proof {
            assert forall|k: int| !splits_at(t, k) by {
                if 0 <= k < t.len() {
                    assert(t[k] != '-');
                }
            }
        }
        return None;
    }
    proof {
        assert(t[i - a] == s@[i as int]);
    }
    let mut j: usize = i + 1;
    while j < b && s[j] != '-'
        invariant
            a <= i < j <= b <= s@.len(),
            t == s@.subrange(a as int, b as int),
            forall|k: int| i - a < k < j - a ==> #[trigger] t[k] != '-',
        decreases b - j,
    {
        proof {
            assert(t[j - a] == s@[j as int]);
        }
        j = j + 1;
    }
    if j == b {
        Some(i)
    } else {
        proof {
            assert(t[j - a] == s@[j as int]);
            assert forall|k: int| !splits_at(t, k) by {
                if splits_at(t, k) {
                    if k == i - a {
                        assert(t[j - a] != '-');
                    } else {
                        assert(t[i - a] != '-');
                    }
                }
            }
        }
        None
    }
}

impl MemoryEngine {
    /// Reads one line of the mappings file.
    pub fn parse_maps_line(line: &str) -> (out: Option<MemoryRegion>)
        ensures
            match out {
                Some(r) => parse_line(line@) == Some(r@),
                None => parse_line(line@) is None,
            },
    {
        let chars = chars_of(line);
        let spans = token_spans(&chars);
        let ghost parts = tokens(line@);
        if spans.len() < 5 {
            return None;
        }
        let (a, b) = spans[0];
        let dash = match find_dash(&chars, a, b) {
            Some(i) => i,
            None => {
                return None;
            },
        };
        proof {
            let c = choose|c: int| splits_at(parts[0], c);
            assert(splits_at(parts[0], dash - a));
            assert(c == dash - a);
            assert(parts[0].subrange(0, dash - a) =~= chars@.subrange(a as int, dash as int));
            assert(parts[0].subrange(dash - a + 1, parts[0].len() as int) =~= chars@.subrange(
                dash + 1,
                b as int,
            ));
        }
        let start_addr = match parse_number(&chars, a, dash, 16) {
            Some(v) => v,
            None => {
                return None;
            },
        };
        let end_addr = match parse_number(&chars, dash + 1, b, 16) {
            Some(v) => v,
            None => {
                return None;
            },
        };
        let permissions = line.substring_char(spans[1].0, spans[1].1).to_owned();
        let offset = match parse_number(&chars, spans[2].0, spans[2].1, 16) {
            Some(v) => v,
            None => 0,
        };
        let device = line.substring_char(spans[3].0, spans[3].1).to_owned();
        let inode = match parse_number(&chars, spans[4].0, spans[4].1, 10) {
            Some(v) => v,
            None => 0,
        };
        let mut pathname = String::new();
        let mut k: usize = 5;
        while k < spans.len()
            invariant
                5 <= k <= spans@.len(),
                chars@ == line@,
                parts == tokens(line@),
                spans@.len() == parts.len(),
                forall|i: int|
                    0 <= i < spans@.len() ==> (#[trigger] spans@[i]).0 < spans@[i].1 <= chars@.len()
                        && parts[i] == chars@.subrange(spans@[i].0 as int, spans@[i].1 as int),
                pathname@ == join_spaced(parts.subrange(5, k as int)),
            decreases spans@.len() - k,
        {
            let ghost sofar = parts.subrange(5, k as int);
            let ghost next = parts.subrange(5, k + 1);
            proof {
                reveal_strlit(" ");
                assert(next.drop_last() =~= sofar);
                assert(next.last() == parts[k as int]);
                assert(" "@ =~= seq![' ']);
            }
            if k > 5 {
                pathname.append(" ");
            }
            pathname.append(line.substring_char(spans[k].0, spans[k].1));
            proof {
                if k > 5 {
                    assert(pathname@ =~= join_spaced(sofar) + seq![' '] + parts[k as int]);
                } else {
                    assert(sofar.len() == 0);
                    assert(pathname@ =~= parts[k as int]);
                    assert(next[0] == parts[k as int]);
                }
            }
            k = k + 1;
        }
        let region = MemoryRegion {
            start_addr,
            end_addr,
            permissions,
            offset,
            device,
            inode,
            pathname,
        };
        proof {
            assert(parts.subrange(5, spans@.len() as int) =~= parts.subrange(
                5,
                parts.len() as int,
            ));
            assert(parse_line(line@) == Some(region@));
        }
        Some(region)
    }

    /// Reads the lines of the mappings file and returns the regions they
    /// describe.
    pub fn parse_memory_maps(lines: &[String]) -> (out: Vec<MemoryRegion>)
        ensures
            views(out@) == parse_lines(texts(lines@)),
    {
        let ghost all = texts(lines@);
        let mut out: Vec<MemoryRegion> = Vec::new();
        let mut i: usize = 0;
        while i < lines.len()
            invariant
                i <= lines@.len(),
                all == texts(lines@),
                views(out@) == parse_lines(all.take(i as int)),
            decreases lines@.len() - i,
        {
            let ghost before = views(out@);
            proof {
                assert(all.take(i + 1).drop_last() =~= all.take(i as int));
                assert(all.take(i + 1).last() == lines@[i as int]@);
            }
            match Self::parse_maps_line(lines[i].as_str()) {
                Some(r) => {
                    out.push(r);
                    proof {
                        assert(views(out@) =~= before.push(r@));
                    }
                },
                None => {},
            }
            i = i + 1;
        }
        proof {
            assert(all.take(lines@.len() as int) =~= all);
        }
        out
    }

    /// Keeps the regions in which a game is likely to keep its state.
    pub fn filter_game_regions(regions: &[MemoryRegion]) -> (out: Vec<MemoryRegion>)
        requires
            forall|i: int| 0 <= i < regions@.len() ==> (#[trigger] regions@[i])@.wf(),
        ensures
            views(out@) == game_regions(views(regions@)),
    {
        let ghost all = views(regions@);
        let mut out: Vec<MemoryRegion> = Vec::new();
        let mut i: usize = 0;
        while i < regions.len()
            invariant
                i <= regions@.len(),
                all == views(regions@),
                forall|k: int| 0 <= k < regions@.len() ==> (#[trigger] regions@[k])@.wf(),
                views(out@) == game_regions(all.take(i as int)),
            decreases regions@.len() - i,
        {
            let ghost before = views(out@);
            proof {
                assert(all.take(i + 1).drop_last() =~= all.take(i as int));
                assert(all.take(i + 1).last() == regions@[i as int]@);
            }
            let r = &regions[i];
            if r.is_readable() && r.is_writable() && (r.is_anonymous() || r.is_heap()) && r.size()
                > 4096 && r.size() < 512 * 1024 * 1024 {
                out.push(r.duplicate());
                proof {
                    assert(views(out@) =~= before.push(r@));
                }
            }
            i = i + 1;
        }
        proof {
            assert(all.take(regions@.len() as int) =~= all);
        }
        out
    }

    /// Keeps the regions whose path contains `lib_name`.
    pub fn find_library_regions(regions: &[MemoryRegion], lib_name: &str) -> (out: Vec<
        MemoryRegion,
    >)
        ensures
            views(out@) == library_regions(views(regions@), lib_name@),
    {
        let ghost all = views(regions@);
        let mut out: Vec<MemoryRegion> = Vec::new();
        let mut i: usize = 0;
        while i < regions.len()
            invariant
                i <= regions@.len(),
                all == views(regions@),
                views(out@) == library_regions(all.take(i as int), lib_name@),
            decreases regions@.len() - i,
        {
            let ghost before = views(out@);
            proof {
                assert(all.take(i + 1).drop_last() =~= all.take(i as int));
                assert(all.take(i + 1).last() == regions@[i as int]@);
            }
            let r = &regions[i];
            if str_contains(r.pathname.as_str(), lib_name) {
                out.push(r.duplicate());
                proof {
                    assert(views(out@) =~= before.push(r@));
                }
            }
            i = i + 1;
        }
        proof {
            assert(all.take(regions@.len() as int) =~= all);
        }
        out
    }
}

} // verus!
