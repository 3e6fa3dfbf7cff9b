//! Stack paint scanner, snapshot recorder and statistics.
//!
//! Before the firmware runs, an external actor paints the stack region with a
//! sentinel byte. The scanner walks a stream of bytes read downward from the
//! stack top and reconstructs which address spans were overwritten, tolerating
//! short sentinel runs inside a used span (the merge threshold) and stopping
//! once a run grows past the abort threshold. The recorder interns snapshots
//! by their (touched-count, stack-pointer-offset) key and keeps one index per
//! sample; statistics derive the median (linear-interpolation percentile) and
//! maximum of both signals.

use crate::asm_parsing::{resolve_index, AsmFile};
use vstd::prelude::*;
use vstd::relations::{sorted_by, total_ordering};
use vstd::seq_lib::lemma_sorted_unique;

verus! {

/// Sentinel byte painted over the stack region before execution.
pub const DEFAULT_SENTINEL: u8 = 0x55;

/// Untouched runs up to this many bytes do not close an open span.
pub const DEFAULT_MERGE_THRESHOLD: u32 = 20;

/// An untouched run past this many bytes ends the scan.
pub const DEFAULT_ABORT_THRESHOLD: u32 = 128;

/// A touched address span, half-open: `start` inclusive, `end` exclusive.
#[derive(Debug, Clone, Copy, PartialEq, Eq, Structural)]
pub struct AddrRange {
    pub start: u32,
    pub end: u32,
}

/// An open span still being accumulated while scanning downward: `start` is
/// one past the highest touched address of the span.
pub struct UsedRange {
    pub start: u32,
}

impl UsedRange {
    /// Opens a span whose exclusive upper bound is `start`.
    pub fn new(start: u32) -> (r: Self)
        ensures
            r.start == start,
    {
        UsedRange { start }
    }

    /// Closes the span at `end`, its lowest touched address.
    pub fn complete(self, end: u32) -> (r: AddrRange)
        ensures
            r == (AddrRange { start: end, end: self.start }),
    {
        AddrRange { start: end, end: self.start }
    }
}

/// The scanner's tuning: the sentinel byte, the merge threshold and the
/// abort threshold.
#[derive(Debug, Clone, Copy, PartialEq, Eq, Structural)]
pub struct ScanConfig {
    pub sentinel: u8,
    pub merge_threshold: u32,
    pub abort_threshold: u32,
}

impl ScanConfig {
    /// The default tuning.
    pub fn new() -> (c: Self)
        ensures
            c.sentinel == DEFAULT_SENTINEL,
            c.merge_threshold == DEFAULT_MERGE_THRESHOLD,
            c.abort_threshold == DEFAULT_ABORT_THRESHOLD,
    {
        ScanConfig {
            sentinel: DEFAULT_SENTINEL,
            merge_threshold: DEFAULT_MERGE_THRESHOLD,
            abort_threshold: DEFAULT_ABORT_THRESHOLD,
        }
    }
}

/// State of the scanner's walk, in mathematical form. Addresses are ints;
/// `open_upper` is one past the highest touched address of the open span;
/// `ranges` holds closed spans as (low, one past high) in discovery order,
/// which runs from high addresses to low ones.
pub ghost struct ScanState {
    pub used: nat,
    pub run: nat,
    pub open_upper: Option<int>,
    pub ranges: Seq<(int, int)>,
    pub done: bool,
}

/// The scanner before the first byte.
pub open spec fn scan_init() -> ScanState {
    ScanState { used: 0, run: 0, open_upper: None, ranges: Seq::empty(), done: false }
}

/// How one byte observed at address `addr` changes the scan state: a touched
/// byte is counted and opens a span if none is open; an untouched byte grows
/// the current run, closes the open span once the run exceeds the merge
/// threshold (the span's low end compensates for the run), and ends the scan
/// once the run exceeds the abort threshold.
pub open spec fn scan_step(st: ScanState, byte: u8, addr: int, cfg: ScanConfig) -> ScanState {
    if byte != cfg.sentinel {
        ScanState {
            used: st.used + 1,
            run: 0,
            open_upper: match st.open_upper {
                Some(u) => Some(u),
                None => Some(addr + 1),
            },
            ranges: st.ranges,
            done: false,
        }
    } else {
        let run1 = st.run + 1;
        let done1 = run1 > cfg.abort_threshold;
        match st.open_upper {
            Some(u) => if run1 > cfg.merge_threshold {
                ScanState {
                    used: st.used,
                    run: run1,
                    open_upper: None,
                    ranges: st.ranges.push((addr + run1, u)),
                    done: done1,
                }
            } else {
                ScanState {
                    used: st.used,
                    run: run1,
                    open_upper: Some(u),
                    ranges: st.ranges,
                    done: done1,
                }
            },
            None => ScanState {
                used: st.used,
                run: run1,
                open_upper: None,
                ranges: st.ranges,
                done: done1,
            },
        }
    }
}

/// The scan state after the first `n` bytes of the stream; the byte at index
/// `i` sits at address `stack_top - 1 - i`. Once the state is done, later
/// bytes change nothing.
pub open spec fn scan_from(bytes: Seq<u8>, stack_top: u32, cfg: ScanConfig, n: int) -> ScanState
    decreases n,
{
    if n <= 0 {
        scan_init()
    } else {
        let prev = scan_from(bytes, stack_top, cfg, n - 1);
        if prev.done {
            prev
        } else {
            scan_step(prev, bytes[n - 1], stack_top - n, cfg)
        }
    }
}

/// How many bytes the scan consumes before it is done, from position `i` on.
pub open spec fn scan_consumed_from(bytes: Seq<u8>, stack_top: u32, cfg: ScanConfig, i: int) -> int
    decreases bytes.len() - i,
{
    if i < 0 || i >= bytes.len() || scan_from(bytes, stack_top, cfg, i).done {
        i
    } else {
        scan_consumed_from(bytes, stack_top, cfg, i + 1)
    }
}

/// How many bytes of the stream the scan consumes.
pub open spec fn scan_consumed(bytes: Seq<u8>, stack_top: u32, cfg: ScanConfig) -> int {
    scan_consumed_from(bytes, stack_top, cfg, 0)
}

proof fn lemma_scan_consumed_is(bytes: Seq<u8>, stack_top: u32, cfg: ScanConfig, i: int, j: int)
    requires
        0 <= j <= i <= bytes.len(),
        forall|m: int| j <= m < i ==> !(#[trigger] scan_from(bytes, stack_top, cfg, m)).done,
        i == bytes.len() || scan_from(bytes, stack_top, cfg, i).done,
    ensures
        scan_consumed_from(bytes, stack_top, cfg, j) == i,
    decreases i - j,
{
    if j < i {
        lemma_scan_consumed_is(bytes, stack_top, cfg, i, j + 1);
    }
}

/// Structural facts of the scan state after `n` bytes: every closed span is
/// non-empty and lies inside the scanned window, discovery order runs from
/// high addresses to low ones, and the open span sits below every closed one
/// with its last touched byte `run` bytes above the next address.
pub open spec fn scan_ranges_wf(st: ScanState, stack_top: u32, n: int) -> bool {
    &&& forall|i: int|
        0 <= i < st.ranges.len() ==> stack_top - n <= (#[trigger] st.ranges[i]).0
            < st.ranges[i].1 <= stack_top
    &&& forall|i: int|
        0 < i < st.ranges.len() ==> (#[trigger] st.ranges[i]).1 <= st.ranges[i - 1].0
    &&& match st.open_upper {
        Some(u) => stack_top - n + st.run < u <= stack_top && (st.ranges.len() > 0 ==> u
            <= st.ranges[st.ranges.len() - 1].0),
        None => true,
    }
}

/// The scan never produces malformed spans: after any number of bytes the
/// state keeps [`scan_ranges_wf`].
pub proof fn lemma_scan_ranges_wf(bytes: Seq<u8>, stack_top: u32, cfg: ScanConfig, n: int)
    requires
        0 <= n <= bytes.len(),
        bytes.len() <= stack_top,
    ensures
        scan_ranges_wf(scan_from(bytes, stack_top, cfg, n), stack_top, n),
    decreases n,
{
    if n > 0 {
        lemma_scan_ranges_wf(bytes, stack_top, cfg, n - 1);
        let prev = scan_from(bytes, stack_top, cfg, n - 1);
        let st = scan_from(bytes, stack_top, cfg, n);
        if !prev.done {
            if st.ranges.len() > prev.ranges.len() {
                assert(st.ranges.drop_last() == prev.ranges);
                assert forall|i: int|
                    0 <= i < st.ranges.len() implies stack_top - n <= (#[trigger] st.ranges[i]).0
                        < st.ranges[i].1 <= stack_top by {
                    if i < st.ranges.len() - 1 {
                        assert(st.ranges[i] == prev.ranges[i]);
                    }
                }
                assert forall|i: int|
                    0 < i < st.ranges.len() implies (#[trigger] st.ranges[i]).1 <= st.ranges[i
                        - 1].0 by {
                    if i < st.ranges.len() - 1 {
                        assert(st.ranges[i] == prev.ranges[i]);
                        assert(st.ranges[i - 1] == prev.ranges[i - 1]);
                    } else {
                        assert(st.ranges[i].1 == prev.open_upper.unwrap());
                    }
                }
            }
        }
    }
}

proof fn lemma_descending_chain(rs: Seq<(int, int)>, i: int, j: int)
    requires
        forall|k: int| 0 <= k < rs.len() ==> (#[trigger] rs[k]).0 < rs[k].1,
        forall|k: int| 0 < k < rs.len() ==> (#[trigger] rs[k]).1 <= rs[k - 1].0,
        0 <= i < j < rs.len(),
    ensures
        rs[j].1 <= rs[i].0,
    decreases j - i,
{
    if i + 1 < j {
        lemma_descending_chain(rs, i + 1, j);
    }
}

/// How many bytes of `bytes` differ from the sentinel.
pub open spec fn touched_count(bytes: Seq<u8>, sentinel: u8) -> nat
    decreases bytes.len(),
{
    if bytes.len() == 0 {
        0
    } else {
        touched_count(bytes.drop_last(), sentinel) + if bytes.last() != sentinel {
            1nat
        } else {
            0nat
        }
    }
}

/// The spans of a scan result as (low, one past high) pairs.
pub open spec fn ranges_view(v: Seq<AddrRange>) -> Seq<(int, int)> {
    v.map_values(|r: AddrRange| (r.start as int, r.end as int))
}

/// What one scan of the painted stack found: the touched spans in ascending
/// address order, the count of touched bytes, and how many bytes of the
/// stream were consumed.
#[derive(Debug)]
pub struct ScanResult {
    pub ranges: Vec<AddrRange>,
    pub used_bytes: u32,
    pub consumed: usize,
}

/// Walks the byte stream read downward from one below `stack_top` and
/// reconstructs the touched spans. The stream ends where memory stopped
/// being readable; the scan may stop earlier, at the abort threshold.
pub fn scan_painted_stack(bytes: &Vec<u8>, stack_top: u32, cfg: &ScanConfig) -> (res: ScanResult)
    requires
        bytes@.len() <= stack_top,
        cfg.abort_threshold < u32::MAX,
    ensures
        ({
            let c = scan_consumed(bytes@, stack_top, *cfg);
            let fin = scan_from(bytes@, stack_top, *cfg, c);
            &&& res.consumed == c
            &&& ranges_view(res.ranges@) == fin.ranges.reverse()
            &&& res.used_bytes == fin.used
            &&& res.used_bytes == touched_count(bytes@.take(c), cfg.sentinel)
            &&& forall|k: int|
                0 <= k < res.ranges@.len() ==> (#[trigger] res.ranges@[k]).start
                    < res.ranges@[k].end <= stack_top
            &&& forall|a: int, b: int|
                0 <= a < b < res.ranges@.len() ==> (#[trigger] res.ranges@[a]).end <= (
                #[trigger] res.ranges@[b]).start
        }),
{
    let mut i: usize = 0;
    let mut used: u32 = 0;
    let mut run: u32 = 0;
    let mut open: Option<UsedRange> = None;
    let mut discovered: Vec<AddrRange> = Vec::new();
    let mut done: bool = false;
    proof {
        assert(ranges_view(discovered@) =~= Seq::<(int, int)>::empty());
        assert(bytes@.take(0) =~= Seq::<u8>::empty());
    }
    while i < bytes.len() && !done
        invariant
            i <= bytes@.len() <= stack_top,
            cfg.abort_threshold < u32::MAX,
            used <= i,
            run <= i,
            ({
                let st = scan_from(bytes@, stack_top, *cfg, i as int);
                &&& st.done == done
                &&& st.used == used
                &&& st.run == run
                &&& (match open {
                    Some(u) => st.open_upper == Some(u.start as int) && u.start <= stack_top,
                    None => st.open_upper is None,
                })
                &&& ranges_view(discovered@) == st.ranges
            }),
            !done ==> run <= cfg.abort_threshold,
            used == touched_count(bytes@.take(i as int), cfg.sentinel),
            forall|m: int|
                0 <= m < i ==> !(#[trigger] scan_from(bytes@, stack_top, *cfg, m)).done,
        decreases bytes@.len() - i,
    {
        proof {
            assert(bytes@.take(i + 1).drop_last() =~= bytes@.take(i as int));
            assert(bytes@.take(i + 1).last() == bytes@[i as int]);
        }
        let b = bytes[i];
        let addr: u32 = stack_top - 1 - (i as u32);
        if b != cfg.sentinel {
            used = used + 1;
            run = 0;
            if open.is_none() {
                open = Some(UsedRange::new(addr + 1));
            }
        } else {
            run = run + 1;
            let cur = open;
            match cur {
                Some(ur) => {
                    if run > cfg.merge_threshold {
                        let closed = ur.complete(addr + run);
                        let ghost ranges0 = ranges_view(discovered@);
                        discovered.push(closed);
                        proof {
                            assert(ranges_view(discovered@) =~= ranges0.push(
                                ((addr + run) as int, ur.start as int),
                            ));
                        }
                        open = None;
                    } else {
                        open = Some(ur);
                    }
                },
                None => {
                    open = None;
                },
            }
            if run > cfg.abort_threshold {
                done = true;
            }
        }
        i = i + 1;
    }
    proof {
        lemma_scan_consumed_is(bytes@, stack_top, *cfg, i as int, 0);
    }
    let mut ranges: Vec<AddrRange> = Vec::new();
    let mut j: usize = discovered.len();
    while j > 0
        invariant
            j <= discovered@.len(),
            ranges@.len() == discovered@.len() - j,
            forall|k: int|
                0 <= k < ranges@.len() ==> ranges@[k] == discovered@[discovered@.len() - 1 - k],
        decreases j,
    {
        j = j - 1;
        ranges.push(discovered[j]);
    }
    proof {
        assert(ranges_view(ranges@) =~= ranges_view(discovered@).reverse());
        let fin = scan_from(bytes@, stack_top, *cfg, i as int);
        lemma_scan_ranges_wf(bytes@, stack_top, *cfg, i as int);
        assert forall|k: int|
            0 <= k < ranges@.len() implies (#[trigger] ranges@[k]).start < ranges@[k].end
                <= stack_top by {
            assert(ranges_view(ranges@)[k] == (ranges@[k].start as int, ranges@[k].end as int));
            assert(ranges_view(ranges@)[k] == fin.ranges[fin.ranges.len() - 1 - k]);
        }
        assert forall|a: int, b: int|
            0 <= a < b < ranges@.len() implies (#[trigger] ranges@[a]).end <= (
            #[trigger] ranges@[b]).start by {
            assert(ranges_view(ranges@)[a] == (ranges@[a].start as int, ranges@[a].end as int));
            assert(ranges_view(ranges@)[b] == (ranges@[b].start as int, ranges@[b].end as int));
            assert(ranges_view(ranges@)[a] == fin.ranges[fin.ranges.len() - 1 - a]);
            assert(ranges_view(ranges@)[b] == fin.ranges[fin.ranges.len() - 1 - b]);
            lemma_descending_chain(
                fin.ranges,
                fin.ranges.len() - 1 - b,
                fin.ranges.len() - 1 - a,
            );
        }
    }
    ScanResult { ranges, used_bytes: used, consumed: i }
}

/// One sample of stack usage: the touched-byte count, the stack-pointer
/// offset (stack top minus current stack pointer), the touched spans as
/// evidence, the instruction pointer, and the function it resolves to, if
/// any. Equality goes by the (touched-count, offset) key alone; the spans
/// are metadata.
#[derive(Debug)]
pub struct RamSnapshot {
    pub used_bytes: u32,
    pub stack_ptr_offset: u32,
    pub ranges: Vec<AddrRange>,
    pub instr_ptr: u32,
    pub function: Option<String>,
}

/// Mathematical model of a [`RamSnapshot`].
pub ghost struct RamSnapshotModel {
    pub used_bytes: u32,
    pub stack_ptr_offset: u32,
    pub ranges: Seq<AddrRange>,
    pub instr_ptr: u32,
    pub function: Option<Seq<char>>,
}

impl View for RamSnapshot {
    type V = RamSnapshotModel;

    open spec fn view(&self) -> RamSnapshotModel {
        RamSnapshotModel {
            used_bytes: self.used_bytes,
            stack_ptr_offset: self.stack_ptr_offset,
            ranges: self.ranges@,
            instr_ptr: self.instr_ptr,
            function: match self.function {
                Some(n) => Some(n@),
                None => None,
            },
        }
    }
}

/// The recorder's equality key: two snapshots stand for the same state when
/// their touched-byte counts and stack-pointer offsets agree.
pub open spec fn snapshot_key_eq(a: RamSnapshot, b: RamSnapshot) -> bool {
    a.used_bytes == b.used_bytes && a.stack_ptr_offset == b.stack_ptr_offset
}

impl PartialEq for RamSnapshot {
    fn eq(&self, other: &Self) -> bool {
        self.used_bytes == other.used_bytes && self.stack_ptr_offset == other.stack_ptr_offset
    }
}

impl vstd::std_specs::cmp::PartialEqSpecImpl for RamSnapshot {
    open spec fn obeys_eq_spec() -> bool {
        true
    }

    open spec fn eq_spec(&self, other: &RamSnapshot) -> bool {
        snapshot_key_eq(*self, *other)
    }
}

/// The recorder's ordering: by touched-byte count first, then by
/// stack-pointer offset; the spans and labels do not take part.
pub open spec fn snapshot_cmp(a: RamSnapshot, b: RamSnapshot) -> core::cmp::Ordering {
    if a.used_bytes != b.used_bytes {
        if a.used_bytes < b.used_bytes {
            core::cmp::Ordering::Less
        } else {
            core::cmp::Ordering::Greater
        }
    } else if a.stack_ptr_offset != b.stack_ptr_offset {
        if a.stack_ptr_offset < b.stack_ptr_offset {
            core::cmp::Ordering::Less
        } else {
            core::cmp::Ordering::Greater
        }
    } else {
        core::cmp::Ordering::Equal
    }
}

impl PartialOrd for RamSnapshot {
    fn partial_cmp(&self, other: &Self) -> Option<core::cmp::Ordering> {
        if self.used_bytes != other.used_bytes {
            if self.used_bytes < other.used_bytes {
                Some(core::cmp::Ordering::Less)
            } else {
                Some(core::cmp::Ordering::Greater)
            }
        } else if self.stack_ptr_offset != other.stack_ptr_offset {
            if self.stack_ptr_offset < other.stack_ptr_offset {
                Some(core::cmp::Ordering::Less)
            } else {
                Some(core::cmp::Ordering::Greater)
            }
        } else {
            Some(core::cmp::Ordering::Equal)
        }
    }
}

impl vstd::std_specs::cmp::PartialOrdSpecImpl for RamSnapshot {
    open spec fn obeys_partial_cmp_spec() -> bool {
        true
    }

    open spec fn partial_cmp_spec(&self, other: &RamSnapshot) -> Option<core::cmp::Ordering> {
        Some(snapshot_cmp(*self, *other))
    }
}

impl Clone for RamSnapshot {
    fn clone(&self) -> (r: Self)
        ensures
            r@ == self@,
    {
        let mut ranges: Vec<AddrRange> = Vec::new();
        let mut i: usize = 0;
        while i < self.ranges.len()
            invariant
                i <= self.ranges@.len(),
                ranges@ == self.ranges@.take(i as int),
            decreases self.ranges@.len() - i,
        {
            proof {
                assert(self.ranges@.take(i + 1).drop_last() =~= self.ranges@.take(i as int));
                assert(self.ranges@.take(i + 1) =~= self.ranges@.take(i as int).push(
                    self.ranges@[i as int],
                ));
            }
            ranges.push(self.ranges[i]);
            i = i + 1;
        }
        proof {
            assert(self.ranges@.take(self.ranges@.len() as int) =~= self.ranges@);
        }
        RamSnapshot {
            used_bytes: self.used_bytes,
            stack_ptr_offset: self.stack_ptr_offset,
            ranges,
            instr_ptr: self.instr_ptr,
            function: match &self.function {
                Some(n) => Some(n.clone()),
                None => None,
            },
        }
    }
}

/// Builds one snapshot from a scan of the painted stack, the register values
/// read while the core was halted, and the disassembly index. The byte
/// stream holds what was readable downward from one below `stack_ptr`; the
/// offset is the distance from the static stack top down to the current
/// stack pointer; the instruction pointer resolves to a function name where
/// the index covers it and degrades to nothing where it does not.
pub fn calculate_used_ram(
    stack_ptr: u32,
    bytes: &Vec<u8>,
    act_stack_ptr: u32,
    instr_ptr: u32,
    asm_file: &AsmFile,
) -> (r: RamSnapshot)
    requires
        bytes@.len() <= stack_ptr,
        act_stack_ptr <= stack_ptr,
    ensures
        ({
            let cfg = ScanConfig {
                sentinel: DEFAULT_SENTINEL,
                merge_threshold: DEFAULT_MERGE_THRESHOLD,
                abort_threshold: DEFAULT_ABORT_THRESHOLD,
            };
            let c = scan_consumed(bytes@, stack_ptr, cfg);
            let fin = scan_from(bytes@, stack_ptr, cfg, c);
            &&& ranges_view(r.ranges@) == fin.ranges.reverse()
            &&& r.used_bytes == fin.used
            &&& r.used_bytes == touched_count(bytes@.take(c), DEFAULT_SENTINEL)
            &&& forall|k: int|
                0 <= k < r.ranges@.len() ==> (#[trigger] r.ranges@[k]).start < r.ranges@[k].end
                    <= stack_ptr
            &&& forall|a: int, b: int|
                0 <= a < b < r.ranges@.len() ==> (#[trigger] r.ranges@[a]).end <= (
                #[trigger] r.ranges@[b]).start
            &&& r.stack_ptr_offset == stack_ptr - act_stack_ptr
            &&& r.instr_ptr == instr_ptr
            &&& (match (r.function, resolve_index(asm_file@, instr_ptr)) {
                (Some(n), Some(i)) => n@ == asm_file@[i].name,
                (None, None) => true,
                _ => false,
            })
        }),
{
    let cfg = ScanConfig::new();
    let scan = scan_painted_stack(bytes, stack_ptr, &cfg);
    let function = match asm_file.get_function_based_on_addr(&instr_ptr) {
        Some(f) => Some(f.name),
        None => None,
    };
    RamSnapshot {
        used_bytes: scan.used_bytes,
        stack_ptr_offset: stack_ptr - act_stack_ptr,
        ranges: scan.ranges,
        instr_ptr,
        function,
    }
}

/// One minimal sample of the core's state: the instruction pointer and the
/// stack-pointer offset.
#[derive(Debug, Clone, Copy, PartialEq, Eq, Structural)]
pub struct CPUSnapshot {
    pub instr_ptr: u32,
    pub stack_ptr_off: u32,
}

/// Builds one minimal sample from the register values read while the core
/// was halted.
pub fn cpu_monitor(stack_ptr: u32, act_stack_ptr: u32, instr_ptr: u32) -> (r: CPUSnapshot)
    requires
        act_stack_ptr <= stack_ptr,
    ensures
        r.instr_ptr == instr_ptr,
        r.stack_ptr_off == stack_ptr - act_stack_ptr,
{
    CPUSnapshot { instr_ptr, stack_ptr_off: stack_ptr - act_stack_ptr }
}

/// Index of the first stored variant equal to `s` under the recorder's key.
pub open spec fn find_variant(vs: Seq<RamSnapshot>, s: RamSnapshot) -> Option<int>
    decreases vs.len(),
{
    if vs.len() == 0 {
        None
    } else if snapshot_key_eq(vs[0], s) {
        Some(0)
    } else {
        match find_variant(vs.skip(1), s) {
            Some(i) => Some(i + 1),
            None => None,
        }
    }
}

/// What [`find_variant`] answers: the first variant of the same key, if any.
pub proof fn lemma_find_variant(vs: Seq<RamSnapshot>, s: RamSnapshot)
    ensures
        match find_variant(vs, s) {
            Some(i) => 0 <= i < vs.len() && snapshot_key_eq(vs[i], s) && forall|j: int|
                0 <= j < i ==> !snapshot_key_eq(#[trigger] vs[j], s),
            None => forall|j: int| 0 <= j < vs.len() ==> !snapshot_key_eq(#[trigger] vs[j], s),
        },
    decreases vs.len(),
{
    if vs.len() == 0 {
    } else if snapshot_key_eq(vs[0], s) {
    } else {
        lemma_find_variant(vs.skip(1), s);
        match find_variant(vs.skip(1), s) {
            Some(i) => {
                assert(vs.skip(1)[i] == vs[i + 1]);
                assert forall|j: int| 0 <= j < i + 1 implies !snapshot_key_eq(
                    #[trigger] vs[j],
                    s,
                ) by {
                    if j > 0 {
                        assert(vs.skip(1)[j - 1] == vs[j]);
                    }
                }
            },
            None => {
                assert forall|j: int| 0 <= j < vs.len() implies !snapshot_key_eq(
                    #[trigger] vs[j],
                    s,
                ) by {
                    if j > 0 {
                        assert(vs.skip(1)[j - 1] == vs[j]);
                    }
                }
            },
        }
    }
}

proof fn lemma_find_variant_is(vs: Seq<RamSnapshot>, s: RamSnapshot, i: int)
    requires
        0 <= i <= vs.len(),
        forall|j: int| 0 <= j < i ==> !snapshot_key_eq(#[trigger] vs[j], s),
        i < vs.len() ==> snapshot_key_eq(vs[i], s),
    ensures
        find_variant(vs, s) == if i < vs.len() {
            Some(i)
        } else {
            None::<int>
        },
    decreases vs.len(),
{
    if vs.len() == 0 {
    } else if i == 0 {
    } else {
        assert(!snapshot_key_eq(vs[0], s));
        assert forall|j: int| 0 <= j < i - 1 implies !snapshot_key_eq(
            #[trigger] vs.skip(1)[j],
            s,
        ) by {
            assert(vs.skip(1)[j] == vs[j + 1]);
        }
        if i - 1 < vs.skip(1).len() {
            assert(vs.skip(1)[i - 1] == vs[i]);
        }
        lemma_find_variant_is(vs.skip(1), s, i - 1);
    }
}

/// Mathematical model of a [`RamSnapshotRecorder`].
pub ghost struct RecorderModel {
    pub analyse_interval_ms: u64,
    pub static_ram_size: usize,
    pub variants: Seq<RamSnapshot>,
    pub records: Seq<usize>,
}

/// The chronological course of the stack-pointer-offset signal.
pub open spec fn stack_course(rec: RecorderModel) -> Seq<u32> {
    rec.records.map_values(|i: usize| rec.variants[i as int].stack_ptr_offset)
}

/// The chronological course of the memory-usage signal.
pub open spec fn usage_course(rec: RecorderModel) -> Seq<u32> {
    rec.records.map_values(|i: usize| rec.variants[i as int].used_bytes)
}

/// The recorder: an interning table of distinct snapshot variants and one
/// table index per sample, in chronological order.
#[derive(Debug)]
pub struct RamSnapshotRecorder {
    analyse_interval_ms: u64,
    static_ram_size: usize,
    snapshot_variants: Vec<RamSnapshot>,
    records: Vec<usize>,
}

impl View for RamSnapshotRecorder {
    type V = RecorderModel;

    closed spec fn view(&self) -> RecorderModel {
        RecorderModel {
            analyse_interval_ms: self.analyse_interval_ms,
            static_ram_size: self.static_ram_size,
            variants: self.snapshot_variants@,
            records: self.records@,
        }
    }
}

/// Statistics-precondition violations: asking for statistics of a recorder
/// that has no samples.
#[derive(Debug, Clone, Copy, PartialEq, Eq, Structural)]
pub enum StatisticsError {
    NoSamples,
}

/// The derived read-only summary: median and maximum stack-pointer offset,
/// maximum memory usage, and the full chronological courses of both signals.
#[derive(Debug)]
pub struct RamStatistics {
    pub median_stack_ptr_off: u32,
    pub max_stack_ptr_off: u32,
    pub max_mem_usage: u32,
    pub stack_ptr_course: Vec<u32>,
    pub mem_usage_course: Vec<u32>,
}

impl RamSnapshotRecorder {
    /// Every sample index points into the variant table, and the table holds
    /// pairwise distinct keys.
    pub open spec fn wf(&self) -> bool {
        &&& forall|k: int|
            0 <= k < self@.records.len() ==> (#[trigger] self@.records[k]) < self@.variants.len()
        &&& forall|i: int, j: int|
            0 <= i < j < self@.variants.len() ==> !snapshot_key_eq(
                self@.variants[i],
                self@.variants[j],
            )
    }

    /// An empty recorder for a run over `static_ram_size` bytes of RAM,
    /// sampled every `analyse_interval_ms` milliseconds.
    pub fn new(static_ram_size: usize, analyse_interval_ms: u64) -> (r: Self)
        ensures
            r@ == (RecorderModel {
                analyse_interval_ms,
                static_ram_size,
                variants: Seq::<RamSnapshot>::empty(),
                records: Seq::<usize>::empty(),
            }),
            r.wf(),
    {
        let r = RamSnapshotRecorder {
            analyse_interval_ms,
            static_ram_size,
            snapshot_variants: Vec::new(),
            records: Vec::new(),
        };
        proof {
            assert(r@.variants =~= Seq::<RamSnapshot>::empty());
            assert(r@.records =~= Seq::<usize>::empty());
        }
        r
    }

    /// Interns one sample: a snapshot whose key is already in the table only
    /// appends that entry's index; a new key appends the snapshot as a new
    /// variant and its fresh index.
    pub fn record(&mut self, snapshot: RamSnapshot)
        requires
            old(self).wf(),
        ensures
            final(self).wf(),
            final(self)@.analyse_interval_ms == old(self)@.analyse_interval_ms,
            final(self)@.static_ram_size == old(self)@.static_ram_size,
            match find_variant(old(self)@.variants, snapshot) {
                Some(i) => final(self)@.variants == old(self)@.variants && final(self)@.records
                    == old(self)@.records.push(i as usize),
                None => ({
                    &&& final(self)@.variants == old(self)@.variants.push(snapshot)
                    &&& final(self)@.records == old(self)@.records.push(
                        old(self)@.variants.len() as usize,
                    )
                }),
            },
    {
        let ghost vs = self@.variants;
        let mut i: usize = 0;
        while i < self.snapshot_variants.len()
            invariant
                i <= vs.len(),
                *self == *old(self),
                old(self).wf(),
                vs == self.snapshot_variants@,
                forall|j: int| 0 <= j < i ==> !snapshot_key_eq(#[trigger] vs[j], snapshot),
            decreases vs.len() - i,
        {
            if self.snapshot_variants[i] == snapshot {
                proof {
                    lemma_find_variant_is(vs, snapshot, i as int);
                }
                self.records.push(i);
                proof {
                    assert forall|k: int| 0 <= k < self@.records.len() implies (
                    #[trigger] self@.records[k]) < self@.variants.len() by {
                        if k < self@.records.len() - 1 {
                            assert(self@.records[k] == old(self)@.records[k]);
                        }
                    }
                }
                return ;
            }
            i = i + 1;
        }
        proof {
            lemma_find_variant_is(vs, snapshot, vs.len() as int);
        }
        let fresh = self.snapshot_variants.len();
        self.snapshot_variants.push(snapshot);
        self.records.push(fresh);
        proof {
            assert forall|k: int| 0 <= k < self@.records.len() implies (
            #[trigger] self@.records[k]) < self@.variants.len() by {
                if k < self@.records.len() - 1 {
                    assert(self@.records[k] == old(self)@.records[k]);
                }
            }
            assert forall|a: int, b: int| 0 <= a < b < self@.variants.len() implies
                !snapshot_key_eq(self@.variants[a], self@.variants[b]) by {
                if b < self@.variants.len() - 1 {
                    assert(self@.variants[a] == vs[a] && self@.variants[b] == vs[b]);
                } else {
                    assert(self@.variants[a] == vs[a] && self@.variants[b] == snapshot);
                }
            }
        }
    }

    /// The polling interval this run was recorded with, in milliseconds.
    pub fn analyse_interval_ms(&self) -> (r: u64)
        ensures
            r == self@.analyse_interval_ms,
    {
        self.analyse_interval_ms
    }

    /// The statically known RAM size of the analysed image, in bytes.
    pub fn static_ram_size(&self) -> (r: usize)
        ensures
            r == self@.static_ram_size,
    {
        self.static_ram_size
    }

    /// A copy of the variant table, in insertion order.
    pub fn snapshot_variants(&self) -> (r: Vec<RamSnapshot>)
        ensures
            r@.len() == self@.variants.len(),
            forall|k: int| 0 <= k < r@.len() ==> (#[trigger] r@[k])@ == self@.variants[k]@,
    {
        let mut r: Vec<RamSnapshot> = Vec::new();
        let mut k: usize = 0;
        while k < self.snapshot_variants.len()
            invariant
                k <= self@.variants.len(),
                self@.variants == self.snapshot_variants@,
                r@.len() == k,
                forall|m: int| 0 <= m < k ==> (#[trigger] r@[m])@ == self@.variants[m]@,
            decreases self@.variants.len() - k,
        {
            r.push(self.snapshot_variants[k].clone());
            k = k + 1;
        }
        r
    }

    /// A copy of the chronological index list.
    pub fn record_indices(&self) -> (r: Vec<usize>)
        ensures
            r@ == self@.records,
    {
        let mut r: Vec<usize> = Vec::new();
        let mut k: usize = 0;
        while k < self.records.len()
            invariant
                k <= self@.records.len(),
                self@.records == self.records@,
                r@ == self@.records.take(k as int),
            decreases self@.records.len() - k,
        {
            proof {
                assert(self@.records.take(k + 1) =~= self@.records.take(k as int).push(
                    self@.records[k as int],
                ));
            }
            r.push(self.records[k]);
            k = k + 1;
        }
        proof {
            assert(self@.records.take(self@.records.len() as int) =~= self@.records);
        }
        r
    }

    /// A replay handle positioned at the first sample.
    pub fn get_records(&self) -> (r: RamSnapshotRecords<'_>)
        ensures
            r.pos == 0,
            r.records == self,
    {
        RamSnapshotRecords { pos: 0, records: self }
    }
}

/// The total order the statistics sort by.
pub open spec fn leq_u32() -> spec_fn(u32, u32) -> bool {
    |x: u32, y: u32| x <= y
}

/// Ascending order on samples is a total order.
pub proof fn lemma_leq_u32_total()
    ensures
        total_ordering(leq_u32()),
{
    assert(vstd::relations::reflexive(leq_u32())) by {
        assert forall|x: u32| #[trigger] leq_u32()(x, x) by {}
    }
    assert(vstd::relations::transitive(leq_u32())) by {
        assert forall|x: u32, y: u32, z: u32|
            #[trigger] leq_u32()(x, y) && #[trigger] leq_u32()(y, z) implies leq_u32()(x, z) by {}
    }
    assert(vstd::relations::antisymmetric(leq_u32())) by {
        assert forall|x: u32, y: u32|
            #[trigger] leq_u32()(x, y) && #[trigger] leq_u32()(y, x) implies x == y by {}
    }
    assert(vstd::relations::strongly_connected(leq_u32())) by {
        assert forall|x: u32, y: u32| #[trigger] leq_u32()(x, y) || #[trigger] leq_u32()(
            y,
            x,
        ) by {}
    }
}

/// Two sorted permutations of the same samples are the same sequence: the
/// sorted course of a signal is unique.
pub proof fn lemma_sorted_permutation_unique(a: Seq<u32>, b: Seq<u32>)
    requires
        sorted_by(a, leq_u32()),
        sorted_by(b, leq_u32()),
        a.to_multiset() == b.to_multiset(),
    ensures
        a == b,
{
    lemma_leq_u32_total();
    lemma_sorted_unique(a, b, leq_u32());
}

proof fn lemma_insert_to_multiset(s: Seq<u32>, i: int, a: u32)
    requires
        0 <= i <= s.len(),
    ensures
        s.insert(i, a).to_multiset() =~= s.to_multiset().insert(a),
{
    broadcast use vstd::seq_lib::group_to_multiset_ensures;
    broadcast use vstd::multiset::group_multiset_axioms;

    let pre = s.subrange(0, i);
    let post = s.subrange(i, s.len() as int);
    assert(s.insert(i, a) == pre.push(a) + post);
    vstd::seq_lib::lemma_multiset_commutative(pre.push(a), post);
    vstd::seq_lib::lemma_multiset_commutative(pre, post);
    assert(s =~= pre + post);
    assert(pre.push(a).to_multiset() =~= pre.to_multiset().insert(a));
}

/// Sorts a copy of the samples ascending (insertion sort).
fn sort_u32(v: &Vec<u32>) -> (out: Vec<u32>)
    ensures
        sorted_by(out@, leq_u32()),
        out@.to_multiset() == v@.to_multiset(),
        out@.len() == v@.len(),
{
    let mut out: Vec<u32> = Vec::new();
    let mut i: usize = 0;
    proof {
        assert(out@ =~= v@.take(0));
    }
    while i < v.len()
        invariant
            i <= v@.len(),
            out@.len() == i,
            sorted_by(out@, leq_u32()),
            out@.to_multiset() == v@.take(i as int).to_multiset(),
        decreases v@.len() - i,
    {
        let x = v[i];
        let mut pos: usize = 0;
        while pos < out.len() && out[pos] <= x
            invariant
                pos <= out@.len(),
                forall|q: int| 0 <= q < pos ==> (#[trigger] out@[q]) <= x,
            decreases out@.len() - pos,
        {
            pos = pos + 1;
        }
        let ghost out0 = out@;
        out.insert(pos, x);
        proof {
            broadcast use vstd::seq_lib::group_to_multiset_ensures;

            out0.insert_ensures(pos as int, x);
            lemma_insert_to_multiset(out0, pos as int, x);
            assert(v@.take(i + 1) =~= v@.take(i as int).push(v@[i as int]));
            assert(v@.take(i + 1).to_multiset() =~= v@.take(i as int).to_multiset().insert(x));
            assert forall|a: int, b: int| 0 <= a < b < out@.len() implies #[trigger] leq_u32()(
                out@[a],
                out@[b],
            ) by {
                let p = pos as int;
                if b < p {
                    assert(out@[a] == out0[a] && out@[b] == out0[b]);
                    assert(leq_u32()(out0[a], out0[b]));
                } else if b == p {
                    assert(out@[a] == out0[a] && out@[b] == x);
                    assert(out0[a] <= x);
                } else if a > p {
                    assert(out@[a] == out0[a - 1] && out@[b] == out0[b - 1]);
                    assert(leq_u32()(out0[a - 1], out0[b - 1]));
                } else if a == p {
                    assert(out@[a] == x && out@[b] == out0[b - 1]);
                    assert(p <= b - 1 < out0.len());
                    assert(out0[p] > x);
                    if p < b - 1 {
                        assert(leq_u32()(out0[p], out0[b - 1]));
                    }
                } else {
                    assert(a < p && b > p);
                    assert(out@[a] == out0[a] && out@[b] == out0[b - 1]);
                    assert(out0[a] <= x);
                    assert(p <= b - 1 < out0.len());
                    assert(out0[p] > x);
                    if p < b - 1 {
                        assert(leq_u32()(out0[p], out0[b - 1]));
                    }
                }
            }
        }
        i = i + 1;
    }
    proof {
        assert(v@.take(v@.len() as int) =~= v@);
    }
    out
}

/// The `pct`-th percentile of a sorted sample set by linear interpolation:
/// the rank is `pct * (n - 1) / 100`; a fractional rank interpolates between
/// the two neighbouring samples, the fraction truncated to whole units.
pub open spec fn percentile_spec(s: Seq<u32>, pct: int) -> u32
    recommends
        s.len() >= 1,
        0 <= pct <= 100,
{
    let rn = pct * (s.len() - 1);
    let n = rn / 100;
    let rem = rn % 100;
    if rem == 0 {
        s[n]
    } else {
        (s[n] + (s[n + 1] - s[n]) * rem / 100) as u32
    }
}

/// The `pct`-th percentile of the sorted samples, by linear interpolation
/// with fixed-point truncation. A single sample is returned directly.
pub fn percentile_of_sorted(sorted_samples: &Vec<u32>, pct: u32) -> (r: u32)
    requires
        sorted_samples@.len() > 0,
        sorted_samples@.len() <= u32::MAX,
        pct <= 100,
        sorted_by(sorted_samples@, leq_u32()),
    ensures
        r == percentile_spec(sorted_samples@, pct as int),
{
    let len = sorted_samples.len();
    if len == 1 {
        proof {
            assert(pct as int * (sorted_samples@.len() - 1) == 0) by (nonlinear_arith)
                requires
                    sorted_samples@.len() == 1,
            ;
        }
        return sorted_samples[0];
    }
    proof {
        assert((pct as int) * ((len - 1) as int) <= 100 * 0xFFFF_FFFF) by (nonlinear_arith)
            requires
                pct as int <= 100,
                0 <= (len - 1) as int <= 0xFFFF_FFFF,
        ;
    }
    let rn: u64 = (pct as u64) * ((len - 1) as u64);
    proof {
        assert(rn / 100 <= len - 1) by (nonlinear_arith)
            requires
                rn == (pct as int) * ((len - 1) as int),
                pct <= 100,
                1 <= len - 1,
        ;
    }
    let n = (rn / 100) as usize;
    let rem = rn % 100;
    if rem == 0 {
        sorted_samples[n]
    } else {
        proof {
            assert(rn / 100 < len - 1) by (nonlinear_arith)
                requires
                    rn == (pct as int) * ((len - 1) as int),
                    pct <= 100,
                    1 <= len - 1,
                    rn % 100 != 0,
            ;
            assert(leq_u32()(sorted_samples@[n as int], sorted_samples@[n as int + 1]));
        }
        let lo = sorted_samples[n];
        let hi = sorted_samples[n + 1];
        proof {
            assert(((hi - lo) as int) * (rem as int) <= 0xFFFF_FFFF * 99) by (nonlinear_arith)
                requires
                    0 <= (hi - lo) as int <= 0xFFFF_FFFF,
                    0 <= rem as int <= 99,
            ;
        }
        let frac: u64 = ((hi - lo) as u64) * rem / 100;
        proof {
            assert(frac <= (hi - lo) as u64) by (nonlinear_arith)
                requires
                    frac == ((hi - lo) as u64) as int * (rem as int) / 100,
                    0 <= rem < 100,
                    0 <= ((hi - lo) as u64) as int,
            ;
        }
        lo + (frac as u32)
    }
}

proof fn lemma_sorted_max(sorted: Seq<u32>, course: Seq<u32>)
    requires
        sorted_by(sorted, leq_u32()),
        sorted.to_multiset() == course.to_multiset(),
        sorted.len() > 0,
    ensures
        forall|k: int| 0 <= k < course.len() ==> (#[trigger] course[k]) <= sorted.last(),
        exists|k: int| 0 <= k < course.len() && (#[trigger] course[k]) == sorted.last(),
{
    broadcast use vstd::seq_lib::group_to_multiset_ensures;

    assert forall|k: int| 0 <= k < course.len() implies (#[trigger] course[k])
        <= sorted.last() by {
        assert(course.contains(course[k]));
        assert(sorted.to_multiset().count(course[k]) > 0);
        assert(sorted.contains(course[k]));
        let j = choose|j: int| 0 <= j < sorted.len() && sorted[j] == course[k];
        if j < sorted.len() - 1 {
            assert(leq_u32()(sorted[j], sorted[sorted.len() - 1]));
        }
    }
    assert(sorted.contains(sorted.last()));
    assert(course.to_multiset().count(sorted.last()) > 0);
    assert(course.contains(sorted.last()));
    let k = choose|k: int| 0 <= k < course.len() && course[k] == sorted.last();
    assert(0 <= k < course.len() && (#[trigger] course[k]) == sorted.last());
}

impl RamSnapshotRecorder {
    /// Derives the summary of the recorded series: the chronological courses
    /// of both signals, their maxima, and the median stack-pointer offset,
    /// the 50th percentile of the sorted course by linear interpolation.
    /// Fails if and only if nothing was recorded.
    pub fn calculate_statistics(&self) -> (r: Result<RamStatistics, StatisticsError>)
        requires
            self.wf(),
            self@.records.len() <= u32::MAX,
        ensures
            match r {
                Err(e) => self@.records.len() == 0 && e == StatisticsError::NoSamples,
                Ok(st) => ({
                    let sc = stack_course(self@);
                    let mc = usage_course(self@);
                    let sorted_sc = sc.sort_by(leq_u32());
                    &&& self@.records.len() > 0
                    &&& st.stack_ptr_course@ == sc
                    &&& st.mem_usage_course@ == mc
                    &&& st.median_stack_ptr_off == percentile_spec(sorted_sc, 50)
                    &&& forall|k: int|
                        0 <= k < sc.len() ==> (#[trigger] sc[k]) <= st.max_stack_ptr_off
                    &&& exists|k: int|
                        0 <= k < sc.len() && (#[trigger] sc[k]) == st.max_stack_ptr_off
                    &&& forall|k: int|
                        0 <= k < mc.len() ==> (#[trigger] mc[k]) <= st.max_mem_usage
                    &&& exists|k: int|
                        0 <= k < mc.len() && (#[trigger] mc[k]) == st.max_mem_usage
                }),
            },
    {
        if self.records.len() == 0 {
            return Err(StatisticsError::NoSamples);
        }
        let mut stack_ptrs_off: Vec<u32> = Vec::new();
        let mut k: usize = 0;
        while k < self.records.len()
            invariant
                self.wf(),
                k <= self@.records.len(),
                stack_ptrs_off@.len() == k,
                forall|m: int|
                    0 <= m < k ==> (#[trigger] stack_ptrs_off@[m]) == self@.variants[self@.records[m] as int].stack_ptr_offset,
            decreases self@.records.len() - k,
        {
            proof {
                assert(self@.records[k as int] < self@.variants.len());
            }
            let idx = self.records[k];
            stack_ptrs_off.push(self.snapshot_variants[idx].stack_ptr_offset);
            k = k + 1;
        }
        proof {
            assert(stack_ptrs_off@ =~= stack_course(self@));
        }
        let mut mem_usage: Vec<u32> = Vec::new();
        let mut k2: usize = 0;
        while k2 < self.records.len()
            invariant
                self.wf(),
                k2 <= self@.records.len(),
                mem_usage@.len() == k2,
                forall|m: int|
                    0 <= m < k2 ==> (#[trigger] mem_usage@[m]) == self@.variants[self@.records[m] as int].used_bytes,
            decreases self@.records.len() - k2,
        {
            proof {
                assert(self@.records[k2 as int] < self@.variants.len());
            }
            let idx = self.records[k2];
            mem_usage.push(self.snapshot_variants[idx].used_bytes);
            k2 = k2 + 1;
        }
        proof {
            assert(mem_usage@ =~= usage_course(self@));
        }
        let sorted_sc = sort_u32(&stack_ptrs_off);
        let median_stack_ptr_off = percentile_of_sorted(&sorted_sc, 50);
        let max_stack_ptr_off = sorted_sc[sorted_sc.len() - 1];
        proof {
            lemma_leq_u32_total();
            stack_course(self@).lemma_sort_by_ensures(leq_u32());
            lemma_sorted_permutation_unique(sorted_sc@, stack_course(self@).sort_by(leq_u32()));
            lemma_sorted_max(sorted_sc@, stack_course(self@));
        }
        let sorted_mc = sort_u32(&mem_usage);
        let max_mem_usage = sorted_mc[sorted_mc.len() - 1];
        proof {
            lemma_sorted_max(sorted_mc@, usage_course(self@));
        }
        Ok(
            RamStatistics {
                median_stack_ptr_off,
                max_stack_ptr_off,
                max_mem_usage,
                stack_ptr_course: stack_ptrs_off,
                mem_usage_course: mem_usage,
            },
        )
    }
}

/// A restartable replay of the recorded series: dereferences the index list
/// against the variant table in chronological order.
pub struct RamSnapshotRecords<'a> {
    pub pos: usize,
    pub records: &'a RamSnapshotRecorder,
}

impl<'a> RamSnapshotRecords<'a> {
    /// The next recorded snapshot, by value, or nothing past the end.
    pub fn next(&mut self) -> (r: Option<RamSnapshot>)
        requires
            old(self).records.wf(),
        ensures
            final(self).records == old(self).records,
            match r {
                Some(s) => ({
                    let m = old(self).records@;
                    &&& old(self).pos < m.records.len()
                    &&& final(self).pos == old(self).pos + 1
                    &&& s@ == m.variants[m.records[old(self).pos as int] as int]@
                }),
                None => old(self).pos >= old(self).records@.records.len() && final(self).pos
                    == old(self).pos,
            },
    {
        if self.pos >= self.records.records.len() {
            return None;
        }
        proof {
            assert(self.records@.records[self.pos as int] < self.records@.variants.len());
        }
        let snap_index = self.records.records[self.pos];
        let snap = self.records.snapshot_variants[snap_index].clone();
        self.pos = self.pos + 1;
        Some(snap)
    }
}

} // verus!
