//! Disassembly index: parses a textual instruction listing into a table of
//! functions with address ranges and call-graph edges, and answers address
//! and callee queries against that table.
//!
//! The listing grammar has three line shapes:
//! - a function header `<hex-address> <<name>>:`, which opens a new function;
//! - an instruction line `<spaces><hex-address>:<tab><text>`, appended to the
//!   open function;
//! - inside an instruction's text, a call pattern `...<tab>bl...<<name>>`
//!   reclassifies the instruction as a branch to the named function.

use vstd::prelude::*;
use vstd::string::*;

verus! {

/// A word character as the listing grammar uses it: an address field is a
/// maximal run of these (hex validity is checked separately).
pub open spec fn is_word_char(c: char) -> bool {
    ('0' <= c && c <= '9') || ('a' <= c && c <= 'z') || ('A' <= c && c <= 'Z') || c == '_'
}

/// Length of the maximal prefix of `s` made of word characters.
pub open spec fn word_prefix_len(s: Seq<char>) -> nat
    decreases s.len(),
{
    if s.len() == 0 || !is_word_char(s[0]) {
        0
    } else {
        (1 + word_prefix_len(s.skip(1))) as nat
    }
}

/// Length of the maximal prefix of `s` made of spaces.
pub open spec fn space_prefix_len(s: Seq<char>) -> nat
    decreases s.len(),
{
    if s.len() == 0 || s[0] != ' ' {
        0
    } else {
        (1 + space_prefix_len(s.skip(1))) as nat
    }
}

proof fn lemma_word_prefix_len_is(s: Seq<char>, n: nat)
    requires
        n <= s.len(),
        forall|i: int| 0 <= i < n ==> is_word_char(s[i]),
        n < s.len() ==> !is_word_char(s[n as int]),
    ensures
        word_prefix_len(s) == n,
    decreases s.len(),
{
    if n == 0 {
    } else {
        assert(is_word_char(s[0]));
        assert forall|i: int| 0 <= i < n - 1 implies is_word_char(s.skip(1)[i]) by {
            assert(s.skip(1)[i] == s[i + 1]);
        }
        if n - 1 < s.skip(1).len() {
            assert(s.skip(1)[n - 1] == s[n as int]);
        }
        lemma_word_prefix_len_is(s.skip(1), (n - 1) as nat);
    }
}

proof fn lemma_space_prefix_len_is(s: Seq<char>, n: nat)
    requires
        n <= s.len(),
        forall|i: int| 0 <= i < n ==> s[i] == ' ',
        n < s.len() ==> s[n as int] != ' ',
    ensures
        space_prefix_len(s) == n,
    decreases s.len(),
{
    if n == 0 {
    } else {
        assert(s[0] == ' ');
        assert forall|i: int| 0 <= i < n - 1 implies s.skip(1)[i] == ' ' by {
            assert(s.skip(1)[i] == s[i + 1]);
        }
        if n - 1 < s.skip(1).len() {
            assert(s.skip(1)[n - 1] == s[n as int]);
        }
        lemma_space_prefix_len_is(s.skip(1), (n - 1) as nat);
    }
}

/// Executable check for [`is_word_char`].
fn word_char(c: char) -> (b: bool)
    ensures
        b == is_word_char(c),
{
    ('0' <= c && c <= '9') || ('a' <= c && c <= 'z') || ('A' <= c && c <= 'Z') || c == '_'
}

/// End of the word-character run of `s` that starts at `from`.
fn word_run_end(s: &str, from: usize) -> (end: usize)
    requires
        from <= s@.len(),
    ensures
        end - from == word_prefix_len(s@.skip(from as int)),
        from <= end <= s@.len(),
{
    let slen = s.unicode_len();
    let mut end = from;
    while end < slen && word_char(s.get_char(end))
        invariant
            from <= end <= slen,
            slen == s@.len(),
            forall|i: int| from <= i < end ==> is_word_char(s@[i]),
        decreases slen - end,
    {
        end = end + 1;
    }
    proof {
        assert(end == slen || !is_word_char(s@[end as int]));
        let tail = s@.skip(from as int);
        assert forall|i: int| 0 <= i < end - from implies is_word_char(tail[i]) by {
            assert(tail[i] == s@[from + i]);
        }
        if end - from < tail.len() {
            assert(tail[end - from] == s@[end as int]);
        }
        lemma_word_prefix_len_is(tail, (end - from) as nat);
    }
    end
}

/// End of the space run of `s` that starts at `from`.
fn space_run_end(s: &str, from: usize) -> (end: usize)
    requires
        from <= s@.len(),
    ensures
        end - from == space_prefix_len(s@.skip(from as int)),
        from <= end <= s@.len(),
{
    let slen = s.unicode_len();
    let mut end = from;
    while end < slen && s.get_char(end) == ' '
        invariant
            from <= end <= slen,
            slen == s@.len(),
            forall|i: int| from <= i < end ==> s@[i] == ' ',
        decreases slen - end,
    {
        end = end + 1;
    }
    proof {
        let tail = s@.skip(from as int);
        assert forall|i: int| 0 <= i < end - from implies tail[i] == ' ' by {
            assert(tail[i] == s@[from + i]);
        }
        if end - from < tail.len() {
            assert(tail[end - from] == s@[end as int]);
        }
        lemma_space_prefix_len_is(tail, (end - from) as nat);
    }
    end
}

/// Hexadecimal digit, as the address fields use them.
pub open spec fn is_hex_digit(c: char) -> bool {
    ('0' <= c && c <= '9') || ('a' <= c && c <= 'f') || ('A' <= c && c <= 'F')
}

/// Numeric value of one hexadecimal digit.
pub open spec fn hex_digit_val(c: char) -> nat {
    if '0' <= c && c <= '9' {
        (c as nat - '0' as nat) as nat
    } else if 'a' <= c && c <= 'f' {
        (c as nat - 'a' as nat + 10) as nat
    } else if 'A' <= c && c <= 'F' {
        (c as nat - 'A' as nat + 10) as nat
    } else {
        0
    }
}

/// Every character of `s` is a hexadecimal digit.
pub open spec fn all_hex_digits(s: Seq<char>) -> bool {
    forall|i: int| 0 <= i < s.len() ==> is_hex_digit(#[trigger] s[i])
}

/// Value of `s` read as a hexadecimal numeral (most significant digit first).
pub open spec fn hex_val(s: Seq<char>) -> nat
    decreases s.len(),
{
    if s.len() == 0 {
        0
    } else {
        hex_val(s.drop_last()) * 16 + hex_digit_val(s.last())
    }
}

/// An address field parses iff it is all hexadecimal digits and its value
/// fits the 32-bit address space.
pub open spec fn parses_as_addr(s: Seq<char>) -> bool {
    all_hex_digits(s) && hex_val(s) <= u32::MAX
}

/// Reads the characters of `s` at `[from, to)` as a hexadecimal address.
fn parse_hex_addr(s: &str, from: usize, to: usize) -> (r: Option<u32>)
    requires
        from <= to <= s@.len(),
    ensures
        ({
            let field = s@.subrange(from as int, to as int);
            match r {
                Some(v) => parses_as_addr(field) && v == hex_val(field),
                None => !parses_as_addr(field),
            }
        }),
{
    let ghost field = s@.subrange(from as int, to as int);
    let mut i = from;
    let mut acc: u64 = 0;
    while i < to
        invariant
            from <= i <= to <= s@.len(),
            field == s@.subrange(from as int, to as int),
            all_hex_digits(field.take(i - from)),
            hex_val(field.take(i - from)) <= u32::MAX ==> acc == hex_val(field.take(i - from)),
            hex_val(field.take(i - from)) > u32::MAX ==> acc > u32::MAX,
            acc <= 0xFFFF_FFFFu64 * 16 + 15,
        decreases to - i,
    {
        let c = s.get_char(i);
        let d: u64 = if '0' <= c && c <= '9' {
            (c as u32 - '0' as u32) as u64
        } else if 'a' <= c && c <= 'f' {
            (c as u32 - 'a' as u32 + 10) as u64
        } else if 'A' <= c && c <= 'F' {
            (c as u32 - 'A' as u32 + 10) as u64
        } else {
            proof {
                assert(field[i - from] == s@[i as int]);
                assert(!is_hex_digit(field[i - from]));
                assert(!all_hex_digits(field));
            }
            return None;
        };
        proof {
            assert(field[i - from] == s@[i as int]);
            assert(field.take(i - from + 1).drop_last() =~= field.take(i - from));
            assert(field.take(i - from + 1).last() == field[i - from]);
            assert forall|j: int| 0 <= j < i - from + 1 implies is_hex_digit(
                #[trigger] field.take(i - from + 1)[j],
            ) by {
                if j < i - from {
                    assert(field.take(i - from)[j] == field.take(i - from + 1)[j]);
                }
            }
        }
        if acc <= 0xFFFF_FFFFu64 {
            acc = acc * 16 + d;
        }
        i = i + 1;
    }
    proof {
        assert(field.take(to - from) =~= field);
    }
    if acc <= 0xFFFF_FFFFu64 {
        Some(acc as u32)
    } else {
        None
    }
}

/// A function header line: `<word-run> <<name>>:` with a non-empty name.
pub open spec fn is_header_line(s: Seq<char>) -> bool {
    let w = word_prefix_len(s) as int;
    &&& w >= 1
    &&& s.len() >= w + 5
    &&& s[w] == ' '
    &&& s[w + 1] == '<'
    &&& s[s.len() - 2] == '>'
    &&& s[s.len() - 1] == ':'
}

/// The address field of a header line.
pub open spec fn header_addr_text(s: Seq<char>) -> Seq<char> {
    s.take(word_prefix_len(s) as int)
}

/// The function name of a header line.
pub open spec fn header_name_text(s: Seq<char>) -> Seq<char> {
    s.subrange(word_prefix_len(s) as int + 2, s.len() - 2)
}

/// An instruction line: `<spaces><word-run>:<tab><text>`.
pub open spec fn is_instr_line(s: Seq<char>) -> bool {
    let k = space_prefix_len(s) as int;
    let w = word_prefix_len(s.skip(k)) as int;
    &&& k >= 1
    &&& w >= 1
    &&& s.len() >= k + w + 2
    &&& s[k + w] == ':'
    &&& s[k + w + 1] == '\t'
}

/// The address field of an instruction line.
pub open spec fn instr_addr_text(s: Seq<char>) -> Seq<char> {
    let k = space_prefix_len(s) as int;
    let w = word_prefix_len(s.skip(k)) as int;
    s.subrange(k, k + w)
}

/// The instruction text of an instruction line (everything after the tab).
pub open spec fn instr_text(s: Seq<char>) -> Seq<char> {
    let k = space_prefix_len(s) as int;
    let w = word_prefix_len(s.skip(k)) as int;
    s.skip(k + w + 2)
}

/// Index of the last occurrence of `c` in `s`, or -1 if there is none.
pub open spec fn last_index_of(s: Seq<char>, c: char) -> int
    decreases s.len(),
{
    if s.len() == 0 {
        -1
    } else if s.last() == c {
        s.len() - 1
    } else {
        last_index_of(s.drop_last(), c)
    }
}

proof fn lemma_last_index_of_is(s: Seq<char>, c: char, p: int)
    requires
        -1 <= p < s.len(),
        p >= 0 ==> s[p] == c,
        forall|i: int| p < i < s.len() ==> s[i] != c,
    ensures
        last_index_of(s, c) == p,
    decreases s.len(),
{
    if s.len() == 0 {
    } else if s.last() == c {
        assert(p == s.len() - 1);
    } else {
        assert(p < s.len() - 1);
        assert forall|i: int| p < i < s.drop_last().len() implies s.drop_last()[i] != c by {
            assert(s.drop_last()[i] == s[i]);
        }
        if p >= 0 {
            assert(s.drop_last()[p] == s[p]);
        }
        lemma_last_index_of_is(s.drop_last(), c, p);
    }
}

/// A `<tab>bl` marker stands somewhere strictly inside `t` before `bound`,
/// with at least one character before it and one after it.
pub open spec fn has_bl_marker(t: Seq<char>, bound: int) -> bool {
    exists|p: int|
        1 <= p && p + 4 <= bound <= t.len() && #[trigger] t[p] == '\t' && t[p + 1] == 'b' && t[p
            + 2] == 'l'
}

/// The instruction text names a call target: a `<tab>bl` marker followed by a
/// final `<name>` group.
pub open spec fn is_branch_text(t: Seq<char>) -> bool {
    let gt = last_index_of(t, '>');
    if gt < 0 {
        false
    } else {
        let lt = last_index_of(t.take(gt), '<');
        lt >= 0 && gt >= lt + 2 && has_bl_marker(t, lt)
    }
}

/// The call target named by a branch instruction's text.
pub open spec fn branch_dest(t: Seq<char>) -> Seq<char> {
    let gt = last_index_of(t, '>');
    let lt = last_index_of(t.take(gt), '<');
    t.subrange(lt + 1, gt)
}

/// Last position of `c` strictly below `below` in `t`.
fn last_pos_below(t: &str, below: usize, c: char) -> (r: Option<usize>)
    requires
        below <= t@.len(),
    ensures
        ({
            let li = last_index_of(t@.take(below as int), c);
            match r {
                Some(p) => p < below && li == p,
                None => li == -1,
            }
        }),
{
    let ghost pre = t@.take(below as int);
    let mut j = below;
    while j > 0
        invariant
            j <= below <= t@.len(),
            pre == t@.take(below as int),
            forall|i: int| j <= i < below ==> pre[i] != c,
        decreases j,
    {
        j = j - 1;
        if t.get_char(j) == c {
            proof {
                assert(pre[j as int] == t@[j as int]);
                lemma_last_index_of_is(pre, c, j as int);
            }
            return Some(j);
        }
        proof {
            assert(pre[j as int] == t@[j as int]);
        }
    }
    proof {
        lemma_last_index_of_is(pre, c, -1);
    }
    None
}

/// Whether a `<tab>bl` marker stands in `t` before `bound`.
fn find_bl_marker(t: &str, bound: usize) -> (b: bool)
    requires
        bound <= t@.len(),
    ensures
        b == has_bl_marker(t@, bound as int),
{
    if bound < 5 {
        return false;
    }
    let mut p: usize = 1;
    while p <= bound - 4
        invariant
            1 <= p <= bound - 3,
            5 <= bound <= t@.len(),
            forall|q: int|
                1 <= q < p ==> !(#[trigger] t@[q] == '\t' && t@[q + 1] == 'b' && t@[q + 2] == 'l'),
        decreases bound - p,
    {
        if t.get_char(p) == '\t' && t.get_char(p + 1) == 'b' && t.get_char(p + 2) == 'l' {
            return true;
        }
        p = p + 1;
    }
    false
}

/// The call target of `t`, if `t` is a branch instruction's text.
fn branch_dest_of(t: &str) -> (r: Option<String>)
    ensures
        ({
            match r {
                Some(d) => is_branch_text(t@) && d@ == branch_dest(t@),
                None => !is_branch_text(t@),
            }
        }),
{
    let tlen = t.unicode_len();
    let gt = match last_pos_below(t, tlen, '>') {
        Some(g) => g,
        None => {
            proof {
                assert(t@.take(tlen as int) =~= t@);
            }
            return None;
        },
    };
    proof {
        assert(t@.take(tlen as int) =~= t@);
    }
    let lt = match last_pos_below(t, gt, '<') {
        Some(l) => l,
        None => {
            return None;
        },
    };
    if gt >= lt + 2 && find_bl_marker(t, lt) {
        let d = t.substring_char(lt + 1, gt);
        Some(d.to_owned())
    } else {
        None
    }
}

/// Errors of the listing build: a bad address field, a function without
/// instructions, an instruction address whose successor leaves the address
/// space, and a table whose ranges are not ascending and disjoint.
#[derive(Debug, Clone, Copy, PartialEq, Eq, Structural)]
pub enum AsmError {
    AddrParseError { line: usize },
    EmptyFunction { line: usize },
    AddressOverflow { line: usize },
    InvalidFunctionRange { index: usize },
    OverlappingRanges { index: usize },
}

/// One parsed instruction: either opaque text or a branch with the name of
/// the destination function.
#[derive(Debug)]
pub enum Instruction {
    Any(String),
    Branch { dest: String },
}

/// Mathematical model of an [`Instruction`].
pub ghost enum InstructionModel {
    Any(Seq<char>),
    Branch(Seq<char>),
}

impl View for Instruction {
    type V = InstructionModel;

    open spec fn view(&self) -> InstructionModel {
        match self {
            Instruction::Any(s) => InstructionModel::Any(s@),
            Instruction::Branch { dest } => InstructionModel::Branch(dest@),
        }
    }
}

impl Clone for Instruction {
    fn clone(&self) -> (r: Self)
        ensures
            r@ == self@,
    {
        match self {
            Instruction::Any(s) => Instruction::Any(s.clone()),
            Instruction::Branch { dest } => Instruction::Branch { dest: dest.clone() },
        }
    }
}

/// The instruction an instruction line's text stands for.
pub open spec fn instruction_of_text(t: Seq<char>) -> InstructionModel {
    if is_branch_text(t) {
        InstructionModel::Branch(branch_dest(t))
    } else {
        InstructionModel::Any(t)
    }
}

/// View of a sequence of (address, instruction) pairs.
pub open spec fn instrs_view(v: Seq<(u32, Instruction)>) -> Seq<(u32, InstructionModel)> {
    v.map_values(|p: (u32, Instruction)| (p.0, p.1@))
}

/// One function of the listing: its name, its half-open address range and
/// its instructions in listing order.
#[derive(Debug)]
pub struct Function {
    pub name: String,
    pub range: core::ops::Range<u32>,
    pub instructions: Vec<(u32, Instruction)>,
}

/// Mathematical model of a [`Function`].
pub ghost struct FunctionModel {
    pub name: Seq<char>,
    pub start: u32,
    pub end: u32,
    pub instructions: Seq<(u32, InstructionModel)>,
}

impl View for Function {
    type V = FunctionModel;

    open spec fn view(&self) -> FunctionModel {
        FunctionModel {
            name: self.name@,
            start: self.range.start,
            end: self.range.end,
            instructions: instrs_view(self.instructions@),
        }
    }
}

impl Clone for Function {
    fn clone(&self) -> (r: Self)
        ensures
            r@ == self@,
    {
        let mut instructions: Vec<(u32, Instruction)> = Vec::new();
        let mut i: usize = 0;
        while i < self.instructions.len()
            invariant
                i <= self.instructions.len(),
                instructions@.len() == i as int,
                forall|j: int|
                    0 <= j < i ==> #[trigger] instructions@[j].0 == self.instructions@[j].0
                        && instructions@[j].1@ == self.instructions@[j].1@,
            decreases self.instructions.len() - i,
        {
            let pair = &self.instructions[i];
            instructions.push((pair.0, pair.1.clone()));
            i = i + 1;
        }
        proof {
            assert(instrs_view(instructions@) =~= instrs_view(self.instructions@));
        }
        Function {
            name: self.name.clone(),
            range: self.range.start..self.range.end,
            instructions,
        }
    }
}

/// An open function accumulator: a header seen, instructions still being
/// collected.
pub struct FunctionHeader {
    pub name: String,
    pub start_addr: u32,
    pub header_line: usize,
    pub instructions: Vec<(u32, Instruction)>,
}

/// Mathematical model of a [`FunctionHeader`].
pub ghost struct OpenFunctionModel {
    pub name: Seq<char>,
    pub start: u32,
    pub header_line: usize,
    pub instructions: Seq<(u32, InstructionModel)>,
}

impl View for FunctionHeader {
    type V = OpenFunctionModel;

    open spec fn view(&self) -> OpenFunctionModel {
        OpenFunctionModel {
            name: self.name@,
            start: self.start_addr,
            header_line: self.header_line,
            instructions: instrs_view(self.instructions@),
        }
    }
}

impl FunctionHeader {
    /// Opens a new accumulator for the function named at `start_addr` by the
    /// header on line `header_line`.
    pub fn new(name: String, start_addr: u32, header_line: usize) -> (h: Self)
        ensures
            h@ == (OpenFunctionModel {
                name: name@,
                start: start_addr,
                header_line,
                instructions: Seq::<(u32, InstructionModel)>::empty(),
            }),
    {
        let h = FunctionHeader { name, start_addr, header_line, instructions: Vec::new() };
        proof {
            assert(instrs_view(h.instructions@) =~= Seq::<(u32, InstructionModel)>::empty());
        }
        h
    }

    /// Closes the accumulator: the range ends one past the address of the
    /// last instruction.
    pub fn complete(self) -> (f: Function)
        requires
            self@.instructions.len() > 0,
            self@.instructions.last().0 < u32::MAX,
        ensures
            f@ == finalize_open(self@),
    {
        let last_addr = self.instructions[self.instructions.len() - 1].0;
        Function {
            range: self.start_addr..last_addr + 1,
            name: self.name,
            instructions: self.instructions,
        }
    }
}

/// The function a closed accumulator stands for.
pub open spec fn finalize_open(f: OpenFunctionModel) -> FunctionModel {
    FunctionModel {
        name: f.name,
        start: f.start,
        end: (f.instructions.last().0 + 1) as u32,
        instructions: f.instructions,
    }
}

/// The shape of one listing line.
enum LineShape {
    Header { addr: u32, name: String },
    Instr { addr: u32, instruction: Instruction },
    Other,
}

/// Classifies one line of the listing.
fn parse_line(line: &str, line_no: usize) -> (r: Result<LineShape, AsmError>)
    ensures
        ({
            let s = line@;
            match r {
                Ok(shape) => match shape {
                    LineShape::Header { addr, name } => is_header_line(s) && parses_as_addr(
                        header_addr_text(s),
                    ) && addr == hex_val(header_addr_text(s)) && name@ == header_name_text(s),
                    LineShape::Instr { addr, instruction } => !is_header_line(s) && is_instr_line(
                        s,
                    ) && parses_as_addr(instr_addr_text(s)) && addr == hex_val(instr_addr_text(s))
                        && instruction@ == instruction_of_text(instr_text(s)),
                    LineShape::Other => !is_header_line(s) && !is_instr_line(s),
                },
                Err(e) => {
                    &&& e == (AsmError::AddrParseError { line: line_no })
                    &&& (is_header_line(s) && !parses_as_addr(header_addr_text(s))) || (
                    !is_header_line(s) && is_instr_line(s) && !parses_as_addr(instr_addr_text(s)))
                },
            }
        }),
{
    let len = line.unicode_len();
    proof {
        assert(line@.skip(0) =~= line@);
    }
    let w = word_run_end(line, 0);
    if w >= 1 && len >= 5 && w <= len - 5 && line.get_char(w) == ' ' && line.get_char(w + 1) == '<'
        && line.get_char(len - 2) == '>' && line.get_char(len - 1) == ':' {
        assert(is_header_line(line@));
        match parse_hex_addr(line, 0, w) {
            None => {
                proof {
                    assert(header_addr_text(line@) =~= line@.subrange(0, w as int));
                }
                Err(AsmError::AddrParseError { line: line_no })
            },
            Some(addr) => {
                proof {
                    assert(header_addr_text(line@) =~= line@.subrange(0, w as int));
                }
                let name = line.substring_char(w + 2, len - 2);
                Ok(LineShape::Header { addr, name: name.to_owned() })
            },
        }
    } else {
        assert(!is_header_line(line@));
        let k = space_run_end(line, 0);
        if k >= 1 {
            let e = word_run_end(line, k);
            if e > k && len >= 2 && e <= len - 2 && line.get_char(e) == ':' && line.get_char(e + 1)
                == '\t' {
                assert(is_instr_line(line@));
                match parse_hex_addr(line, k, e) {
                    None => {
                        proof {
                            assert(instr_addr_text(line@) =~= line@.subrange(k as int, e as int));
                        }
                        Err(AsmError::AddrParseError { line: line_no })
                    },
                    Some(addr) => {
                        proof {
                            assert(instr_addr_text(line@) =~= line@.subrange(k as int, e as int));
                        }
                        let text = line.substring_char(e + 2, len);
                        proof {
                            assert(text@ =~= instr_text(line@));
                        }
                        let instruction = match branch_dest_of(text) {
                            Some(dest) => Instruction::Branch { dest },
                            None => Instruction::Any(text.to_owned()),
                        };
                        Ok(LineShape::Instr { addr, instruction })
                    },
                }
            } else {
                assert(!is_instr_line(line@));
                Ok(LineShape::Other)
            }
        } else {
            assert(!is_instr_line(line@));
            Ok(LineShape::Other)
        }
    }
}

/// State of the build after some prefix of the listing: the functions
/// already closed, and the accumulator still open, if any.
pub ghost struct BuildState {
    pub built: Seq<FunctionModel>,
    pub open: Option<OpenFunctionModel>,
}

/// Closes the open accumulator of `st`, if any: a function with no
/// instructions, or one whose last address has no successor, is rejected.
pub open spec fn close_if_open(st: BuildState) -> Result<Seq<FunctionModel>, AsmError> {
    match st.open {
        None => Ok(st.built),
        Some(f) => if f.instructions.len() == 0 {
            Err(AsmError::EmptyFunction { line: f.header_line })
        } else if f.instructions.last().0 == u32::MAX {
            Err(AsmError::AddressOverflow { line: f.header_line })
        } else {
            Ok(st.built.push(finalize_open(f)))
        },
    }
}

/// How one listing line changes the build state.
pub open spec fn line_step(st: BuildState, line: Seq<char>, line_no: usize) -> Result<
    BuildState,
    AsmError,
> {
    if is_header_line(line) {
        if !parses_as_addr(header_addr_text(line)) {
            Err(AsmError::AddrParseError { line: line_no })
        } else {
            match close_if_open(st) {
                Err(e) => Err(e),
                Ok(built) => Ok(
                    BuildState {
                        built,
                        open: Some(
                            OpenFunctionModel {
                                name: header_name_text(line),
                                start: hex_val(header_addr_text(line)) as u32,
                                header_line: line_no,
                                instructions: Seq::empty(),
                            },
                        ),
                    },
                ),
            }
        }
    } else if is_instr_line(line) {
        if !parses_as_addr(instr_addr_text(line)) {
            Err(AsmError::AddrParseError { line: line_no })
        } else {
            match st.open {
                None => Ok(st),
                Some(f) => Ok(
                    BuildState {
                        built: st.built,
                        open: Some(
                            OpenFunctionModel {
                                name: f.name,
                                start: f.start,
                                header_line: f.header_line,
                                instructions: f.instructions.push(
                                    (
                                        hex_val(instr_addr_text(line)) as u32,
                                        instruction_of_text(instr_text(line)),
                                    ),
                                ),
                            },
                        ),
                    },
                ),
            }
        }
    } else {
        Ok(st)
    }
}

/// The build state after the first `n` lines of the listing.
pub open spec fn build_state_after(lines: Seq<Seq<char>>, n: int) -> Result<BuildState, AsmError>
    decreases n,
{
    if n <= 0 {
        Ok(BuildState { built: Seq::empty(), open: None })
    } else {
        match build_state_after(lines, n - 1) {
            Err(e) => Err(e),
            Ok(st) => line_step(st, lines[n - 1], (n - 1) as usize),
        }
    }
}

proof fn lemma_build_err_persists(lines: Seq<Seq<char>>, n: int, m: int)
    requires
        n <= m,
        build_state_after(lines, n) is Err,
    ensures
        build_state_after(lines, m) == build_state_after(lines, n),
    decreases m - n,
{
    if n < m {
        lemma_build_err_persists(lines, n, m - 1);
    }
}

/// First violation, from position `i` on, of the table's range discipline:
/// every range non-empty, ranges ascending and disjoint.
pub open spec fn check_ranges_from(fns: Seq<FunctionModel>, i: int) -> Option<AsmError>
    decreases fns.len() - i,
{
    if i < 0 || i >= fns.len() {
        None
    } else if !(fns[i].start < fns[i].end) {
        Some(AsmError::InvalidFunctionRange { index: i as usize })
    } else if i > 0 && !(fns[i - 1].end <= fns[i].start) {
        Some(AsmError::OverlappingRanges { index: i as usize })
    } else {
        check_ranges_from(fns, i + 1)
    }
}

/// The table's range discipline: every range non-empty, ranges ascending
/// and pairwise disjoint.
pub open spec fn ranges_ordered(fns: Seq<FunctionModel>) -> bool {
    &&& forall|i: int| 0 <= i < fns.len() ==> (#[trigger] fns[i]).start < fns[i].end
    &&& forall|i: int| 0 < i < fns.len() ==> (#[trigger] fns[i]).start >= fns[i - 1].end
}

proof fn lemma_check_ranges_none(fns: Seq<FunctionModel>, i: int)
    requires
        0 <= i <= fns.len(),
        check_ranges_from(fns, i) is None,
    ensures
        forall|j: int| i <= j < fns.len() ==> (#[trigger] fns[j]).start < fns[j].end,
        forall|j: int|
            i <= j < fns.len() && j > 0 ==> (#[trigger] fns[j]).start >= fns[j - 1].end,
    decreases fns.len() - i,
{
    if i < fns.len() {
        lemma_check_ranges_none(fns, i + 1);
    }
}

/// In an ordered table all ranges are pairwise disjoint: everything of an
/// earlier function lies strictly below everything of a later one.
pub proof fn lemma_ordered_disjoint(fns: Seq<FunctionModel>, i: int, j: int)
    requires
        ranges_ordered(fns),
        0 <= i < j < fns.len(),
    ensures
        fns[i].end <= fns[j].start,
    decreases j - i,
{
    if i + 1 == j {
    } else {
        lemma_ordered_disjoint(fns, i + 1, j);
    }
}

/// What the listing parses to: the function table, or the first error.
pub open spec fn parse_listing(lines: Seq<Seq<char>>) -> Result<Seq<FunctionModel>, AsmError> {
    match build_state_after(lines, lines.len() as int) {
        Err(e) => Err(e),
        Ok(st) => match close_if_open(st) {
            Err(e) => Err(e),
            Ok(fns) => match check_ranges_from(fns, 0) {
                Some(e) => Err(e),
                None => Ok(fns),
            },
        },
    }
}

/// The views of a table's functions.
pub open spec fn funcs_view(v: Seq<Function>) -> Seq<FunctionModel> {
    v.map_values(|f: Function| f@)
}

/// The views of a listing's lines.
pub open spec fn lines_view(v: Seq<String>) -> Seq<Seq<char>> {
    v.map_values(|l: String| l@)
}

/// The disassembly index: an ordered table of functions.
#[derive(Debug)]
pub struct AsmFile {
    functions: Vec<Function>,
}

impl View for AsmFile {
    type V = Seq<FunctionModel>;

    closed spec fn view(&self) -> Seq<FunctionModel> {
        funcs_view(self.functions@)
    }
}

impl AsmFile {
    /// The table keeps the build's range discipline.
    pub open spec fn wf(&self) -> bool {
        ranges_ordered(self@)
    }

    /// Builds the index from the lines of a disassembly listing.
    pub fn from_file(lines: &Vec<String>) -> (r: Result<AsmFile, AsmError>)
        ensures
            ({
                match (r, parse_listing(lines_view(lines@))) {
                    (Ok(f), Ok(m)) => f@ == m && f.wf(),
                    (Err(e), Err(m)) => e == m,
                    _ => false,
                }
            }),
    {
        let ghost lv = lines_view(lines@);
        let mut built: Vec<Function> = Vec::new();
        let mut open: Option<FunctionHeader> = None;
        let mut i: usize = 0;
        proof {
            assert(funcs_view(built@) =~= Seq::<FunctionModel>::empty());
        }
        while i < lines.len()
            invariant
                i <= lines.len(),
                lv == lines_view(lines@),
                build_state_after(lv, i as int) == Ok::<BuildState, AsmError>(
                    BuildState {
                        built: funcs_view(built@),
                        open: match open {
                            Some(h) => Some(h@),
                            None => None,
                        },
                    },
                ),
            decreases lines.len() - i,
        {
            proof {
                assert(lv[i as int] == lines@[i as int]@);
            }
            let shape = match parse_line(lines[i].as_str(), i) {
                Ok(shape) => shape,
                Err(e) => {
                    proof {
                        assert(build_state_after(lv, i + 1) == Err::<BuildState, AsmError>(e));
                        lemma_build_err_persists(lv, i + 1, lv.len() as int);
                    }
                    return Err(e);
                },
            };
            match shape {
                LineShape::Header { addr, name } => {
                    let prev = open;
                    if let Some(h) = prev {
                        proof {
                            if h.instructions@.len() > 0 {
                                assert(h@.instructions.last() == (
                                    h.instructions@[h.instructions@.len() - 1].0,
                                    h.instructions@[h.instructions@.len() - 1].1@,
                                ));
                            }
                        }
                        if h.instructions.len() == 0 {
                            proof {
                                assert(build_state_after(lv, i + 1) == Err::<BuildState, AsmError>(
                                    AsmError::EmptyFunction { line: h.header_line },
                                ));
                                lemma_build_err_persists(lv, i + 1, lv.len() as int);
                            }
                            return Err(AsmError::EmptyFunction { line: h.header_line });
                        }
                        if h.instructions[h.instructions.len() - 1].0 == u32::MAX {
                            proof {
                                assert(build_state_after(lv, i + 1) == Err::<BuildState, AsmError>(
                                    AsmError::AddressOverflow { line: h.header_line },
                                ));
                                lemma_build_err_persists(lv, i + 1, lv.len() as int);
                            }
                            return Err(AsmError::AddressOverflow { line: h.header_line });
                        }
                        proof {
                            assert(h@.instructions.last() == (
                                h.instructions@[h.instructions@.len() - 1].0,
                                h.instructions@[h.instructions@.len() - 1].1@,
                            ));
                        }
                        let ghost built0 = built@;
                        let ghost hm = h@;
                        let f = h.complete();
                        built.push(f);
                        proof {
                            assert(funcs_view(built@) =~= funcs_view(built0).push(
                                finalize_open(hm),
                            ));
                        }
                    }
                    open = Some(FunctionHeader::new(name, addr, i));
                },
                LineShape::Instr { addr, instruction } => {
                    let cur = open;
                    match cur {
                        Some(mut h) => {
                            let ghost insts0 = h.instructions@;
                            h.instructions.push((addr, instruction));
                            proof {
                                assert(instrs_view(h.instructions@) =~= instrs_view(insts0).push(
                                    (addr, instruction@),
                                ));
                            }
                            open = Some(h);
                        },
                        None => {
                            open = None;
                        },
                    }
                },
                LineShape::Other => {},
            }
            i = i + 1;
        }
        // end of stream: close the still-open accumulator
        if let Some(h) = open {
            if h.instructions.len() == 0 {
                return Err(AsmError::EmptyFunction { line: h.header_line });
            }
            if h.instructions[h.instructions.len() - 1].0 == u32::MAX {
                return Err(AsmError::AddressOverflow { line: h.header_line });
            }
            proof {
                assert(h@.instructions.last() == (
                    h.instructions@[h.instructions@.len() - 1].0,
                    h.instructions@[h.instructions@.len() - 1].1@,
                ));
            }
            let ghost built0 = built@;
            let ghost hm = h@;
            let f = h.complete();
            built.push(f);
            proof {
                assert(funcs_view(built@) =~= funcs_view(built0).push(finalize_open(hm)));
            }
        }
        // validation pass: ranges must be non-empty, ascending and disjoint
        let n = built.len();
        let mut j: usize = 0;
        while j < n
            invariant
                j <= n,
                n == built@.len(),
                check_ranges_from(funcs_view(built@), 0) == check_ranges_from(
                    funcs_view(built@),
                    j as int,
                ),
                ({
                    let m = parse_listing(lines_view(lines@));
                    let fv = funcs_view(built@);
                    match check_ranges_from(fv, 0) {
                        Some(e) => m == Err::<Seq<FunctionModel>, AsmError>(e),
                        None => m == Ok::<Seq<FunctionModel>, AsmError>(fv),
                    }
                }),
            decreases n - j,
        {
            proof {
                assert(funcs_view(built@)[j as int] == built@[j as int]@);
                if j > 0 {
                    assert(funcs_view(built@)[j as int - 1] == built@[j as int - 1]@);
                }
            }
            if !(built[j].range.start < built[j].range.end) {
                proof {
                    assert(check_ranges_from(funcs_view(built@), j as int)
                        == Some(AsmError::InvalidFunctionRange { index: j }));
                }
                return Err(AsmError::InvalidFunctionRange { index: j });
            }
            if j > 0 && !(built[j - 1].range.end <= built[j].range.start) {
                proof {
                    assert(check_ranges_from(funcs_view(built@), j as int)
                        == Some(AsmError::OverlappingRanges { index: j }));
                }
                return Err(AsmError::OverlappingRanges { index: j });
            }
            j = j + 1;
        }
        proof {
            lemma_check_ranges_none(funcs_view(built@), 0);
        }
        Ok(AsmFile { functions: built })
    }
}

/// Whether `addr` lies in the half-open address range of `f`.
pub open spec fn function_contains_addr(f: FunctionModel, addr: u32) -> bool {
    f.start <= addr && addr < f.end
}

/// Index of the first function of the table whose range contains `addr`.
pub open spec fn resolve_index(fns: Seq<FunctionModel>, addr: u32) -> Option<int>
    decreases fns.len(),
{
    if fns.len() == 0 {
        None
    } else if function_contains_addr(fns[0], addr) {
        Some(0)
    } else {
        match resolve_index(fns.skip(1), addr) {
            Some(i) => Some(i + 1),
            None => None,
        }
    }
}

/// What [`resolve_index`] answers: the first containing function, if any.
pub proof fn lemma_resolve_index(fns: Seq<FunctionModel>, addr: u32)
    ensures
        match resolve_index(fns, addr) {
            Some(i) => 0 <= i < fns.len() && function_contains_addr(fns[i], addr) && forall|j: int|
                0 <= j < i ==> !function_contains_addr(#[trigger] fns[j], addr),
            None => forall|j: int|
                0 <= j < fns.len() ==> !function_contains_addr(#[trigger] fns[j], addr),
        },
    decreases fns.len(),
{
    if fns.len() == 0 {
    } else if function_contains_addr(fns[0], addr) {
    } else {
        lemma_resolve_index(fns.skip(1), addr);
        match resolve_index(fns.skip(1), addr) {
            Some(i) => {
                assert(fns.skip(1)[i] == fns[i + 1]);
                assert forall|j: int| 0 <= j < i + 1 implies !function_contains_addr(
                    #[trigger] fns[j],
                    addr,
                ) by {
                    if j > 0 {
                        assert(fns.skip(1)[j - 1] == fns[j]);
                    }
                }
            },
            None => {
                assert forall|j: int| 0 <= j < fns.len() implies !function_contains_addr(
                    #[trigger] fns[j],
                    addr,
                ) by {
                    if j > 0 {
                        assert(fns.skip(1)[j - 1] == fns[j]);
                    }
                }
            },
        }
    }
}

proof fn lemma_resolve_index_is(fns: Seq<FunctionModel>, addr: u32, i: int)
    requires
        0 <= i <= fns.len(),
        forall|j: int| 0 <= j < i ==> !function_contains_addr(#[trigger] fns[j], addr),
        i < fns.len() ==> function_contains_addr(fns[i], addr),
    ensures
        resolve_index(fns, addr) == if i < fns.len() {
            Some(i)
        } else {
            None::<int>
        },
    decreases fns.len(),
{
    if fns.len() == 0 {
    } else if i == 0 {
    } else {
        assert(!function_contains_addr(fns[0], addr));
        assert forall|j: int| 0 <= j < i - 1 implies !function_contains_addr(
            #[trigger] fns.skip(1)[j],
            addr,
        ) by {
            assert(fns.skip(1)[j] == fns[j + 1]);
        }
        if i - 1 < fns.skip(1).len() {
            assert(fns.skip(1)[i - 1] == fns[i]);
        }
        lemma_resolve_index_is(fns.skip(1), addr, i - 1);
    }
}

/// Index of the first function of the table with the given name.
pub open spec fn find_name_index(fns: Seq<FunctionModel>, name: Seq<char>) -> Option<int>
    decreases fns.len(),
{
    if fns.len() == 0 {
        None
    } else if fns[0].name == name {
        Some(0)
    } else {
        match find_name_index(fns.skip(1), name) {
            Some(i) => Some(i + 1),
            None => None,
        }
    }
}

/// What [`find_name_index`] answers: the first function of that name, if any.
pub proof fn lemma_find_name_index(fns: Seq<FunctionModel>, name: Seq<char>)
    ensures
        match find_name_index(fns, name) {
            Some(i) => 0 <= i < fns.len() && fns[i].name == name && forall|j: int|
                0 <= j < i ==> (#[trigger] fns[j]).name != name,
            None => forall|j: int| 0 <= j < fns.len() ==> (#[trigger] fns[j]).name != name,
        },
    decreases fns.len(),
{
    if fns.len() == 0 {
    } else if fns[0].name == name {
    } else {
        lemma_find_name_index(fns.skip(1), name);
        match find_name_index(fns.skip(1), name) {
            Some(i) => {
                assert(fns.skip(1)[i] == fns[i + 1]);
                assert forall|j: int| 0 <= j < i + 1 implies (#[trigger] fns[j]).name != name by {
                    if j > 0 {
                        assert(fns.skip(1)[j - 1] == fns[j]);
                    }
                }
            },
            None => {
                assert forall|j: int| 0 <= j < fns.len() implies (#[trigger] fns[j]).name
                    != name by {
                    if j > 0 {
                        assert(fns.skip(1)[j - 1] == fns[j]);
                    }
                }
            },
        }
    }
}

proof fn lemma_find_name_index_is(fns: Seq<FunctionModel>, name: Seq<char>, i: int)
    requires
        0 <= i <= fns.len(),
        forall|j: int| 0 <= j < i ==> (#[trigger] fns[j]).name != name,
        i < fns.len() ==> fns[i].name == name,
    ensures
        find_name_index(fns, name) == if i < fns.len() {
            Some(i)
        } else {
            None::<int>
        },
    decreases fns.len(),
{
    if fns.len() == 0 {
    } else if i == 0 {
    } else {
        assert(fns[0].name != name);
        assert forall|j: int| 0 <= j < i - 1 implies (#[trigger] fns.skip(1)[j]).name != name by {
            assert(fns.skip(1)[j] == fns[j + 1]);
        }
        if i - 1 < fns.skip(1).len() {
            assert(fns.skip(1)[i - 1] == fns[i]);
        }
        lemma_find_name_index_is(fns.skip(1), name, i - 1);
    }
}

/// The destination names of a function's branch instructions, in listing
/// order, duplicates kept.
pub open spec fn branch_dests(instrs: Seq<(u32, InstructionModel)>) -> Seq<Seq<char>>
    decreases instrs.len(),
{
    if instrs.len() == 0 {
        Seq::empty()
    } else {
        let rest = branch_dests(instrs.drop_last());
        match instrs.last().1 {
            InstructionModel::Branch(d) => rest.push(d),
            InstructionModel::Any(_) => rest,
        }
    }
}

/// Deduplication keeping the first occurrence of each element, in order.
pub open spec fn dedup_first_seen(s: Seq<Seq<char>>) -> Seq<Seq<char>>
    decreases s.len(),
{
    if s.len() == 0 {
        Seq::empty()
    } else {
        let d = dedup_first_seen(s.drop_last());
        if d.contains(s.last()) {
            d
        } else {
            d.push(s.last())
        }
    }
}

/// Deduplication yields pairwise distinct entries and keeps exactly the
/// elements of the input.
pub proof fn lemma_dedup_first_seen(s: Seq<Seq<char>>)
    ensures
        forall|i: int, j: int|
            0 <= i < j < dedup_first_seen(s).len() ==> dedup_first_seen(s)[i] != dedup_first_seen(
                s,
            )[j],
        forall|x: Seq<char>| dedup_first_seen(s).contains(x) <==> s.contains(x),
    decreases s.len(),
{
    if s.len() == 0 {
        assert forall|x: Seq<char>| s.contains(x) implies dedup_first_seen(s).contains(x) by {}
    } else {
        lemma_dedup_first_seen(s.drop_last());
        let d = dedup_first_seen(s.drop_last());
        let r = dedup_first_seen(s);
        assert forall|x: Seq<char>| r.contains(x) implies s.contains(x) by {
            if d.contains(x) {
                assert(s.drop_last().contains(x));
                let k = choose|k: int| 0 <= k < s.drop_last().len() && s.drop_last()[k] == x;
                assert(s[k] == x);
            } else {
                assert(x == s.last());
                assert(s[s.len() - 1] == x);
            }
        }
        assert forall|x: Seq<char>| s.contains(x) implies r.contains(x) by {
            let k = choose|k: int| 0 <= k < s.len() && s[k] == x;
            if k < s.len() - 1 {
                assert(s.drop_last()[k] == x);
                assert(s.drop_last().contains(x));
                assert(d.contains(x));
                if d.contains(s.last()) {
                    assert(r == d);
                } else {
                    let m = choose|m: int| 0 <= m < d.len() && d[m] == x;
                    assert(r[m] == x);
                }
            } else {
                if d.contains(s.last()) {
                    assert(r == d);
                } else {
                    assert(r[r.len() - 1] == x);
                }
            }
        }
        if !d.contains(s.last()) {
            assert forall|i: int, j: int| 0 <= i < j < r.len() implies r[i] != r[j] by {
                if j < r.len() - 1 {
                    assert(r[i] == d[i] && r[j] == d[j]);
                } else {
                    assert(r[j] == s.last());
                    assert(r[i] == d[i]);
                    assert(d.contains(d[i]));
                }
            }
        }
    }
}

/// The views of a list of names.
pub open spec fn names_view(v: Seq<String>) -> Seq<Seq<char>> {
    v.map_values(|n: String| n@)
}

/// Character-wise string equality.
fn str_eq(a: &str, b: &str) -> (r: bool)
    ensures
        r == (a@ == b@),
{
    let al = a.unicode_len();
    let bl = b.unicode_len();
    if al != bl {
        return false;
    }
    let mut i: usize = 0;
    while i < al
        invariant
            i <= al,
            al == a@.len(),
            al == b@.len(),
            forall|j: int| 0 <= j < i ==> a@[j] == b@[j],
        decreases al - i,
    {
        if a.get_char(i) != b.get_char(i) {
            return false;
        }
        i = i + 1;
    }
    proof {
        assert(a@ =~= b@);
    }
    true
}

/// One resolved or unresolved callee of a function: a destination name that
/// the table knows becomes the named function, one it does not know stays a
/// name.
#[derive(Debug)]
pub enum Callee {
    Resolved(Function),
    Unresolved(String),
}

/// Mathematical model of a [`Callee`].
pub ghost enum CalleeModel {
    Resolved(FunctionModel),
    Unresolved(Seq<char>),
}

impl View for Callee {
    type V = CalleeModel;

    open spec fn view(&self) -> CalleeModel {
        match self {
            Callee::Resolved(f) => CalleeModel::Resolved(f@),
            Callee::Unresolved(n) => CalleeModel::Unresolved(n@),
        }
    }
}

/// How one destination name must be answered against the table.
pub open spec fn callee_resolution(
    fns: Seq<FunctionModel>,
    name: Seq<char>,
    c: CalleeModel,
) -> bool {
    match find_name_index(fns, name) {
        Some(j) => c == CalleeModel::Resolved(fns[j]),
        None => c == CalleeModel::Unresolved(name),
    }
}

impl AsmFile {
    /// Index of the first function named `name`, as the table stores it.
    fn find_index_by_name(&self, name: &str) -> (r: Option<usize>)
        ensures
            match (r, find_name_index(self@, name@)) {
                (Some(i), Some(j)) => i == j,
                (None, None) => true,
                _ => false,
            },
    {
        let mut i: usize = 0;
        while i < self.functions.len()
            invariant
                i <= self.functions@.len(),
                forall|j: int| 0 <= j < i ==> (#[trigger] funcs_view(self.functions@)[j]).name
                    != name@,
            decreases self.functions@.len() - i,
        {
            proof {
                assert(funcs_view(self.functions@)[i as int] == self.functions@[i as int]@);
            }
            if str_eq(self.functions[i].name.as_str(), name) {
                proof {
                    lemma_find_name_index_is(self@, name@, i as int);
                }
                return Some(i);
            }
            i = i + 1;
        }
        proof {
            lemma_find_name_index_is(self@, name@, self.functions@.len() as int);
        }
        None
    }

    /// The function whose half-open range contains `addr`, by value, or
    /// nothing when the address lies outside every indexed function.
    pub fn get_function_based_on_addr(&self, addr: &u32) -> (r: Option<Function>)
        ensures
            match (r, resolve_index(self@, *addr)) {
                (Some(f), Some(i)) => f@ == self@[i],
                (None, None) => true,
                _ => false,
            },
    {
        let mut i: usize = 0;
        while i < self.functions.len()
            invariant
                i <= self.functions@.len(),
                forall|j: int|
                    0 <= j < i ==> !function_contains_addr(
                        #[trigger] funcs_view(self.functions@)[j],
                        *addr,
                    ),
            decreases self.functions@.len() - i,
        {
            proof {
                assert(funcs_view(self.functions@)[i as int] == self.functions@[i as int]@);
            }
            let f = &self.functions[i];
            if f.range.start <= *addr && *addr < f.range.end {
                proof {
                    lemma_resolve_index_is(self@, *addr, i as int);
                }
                return Some(f.clone());
            }
            i = i + 1;
        }
        proof {
            lemma_resolve_index_is(self@, *addr, self.functions@.len() as int);
        }
        None
    }

    /// The direct callees of the function named `function`: the branch
    /// destinations of its instructions, deduplicated in first-seen order,
    /// each resolved by exact name against the table where possible. Nothing
    /// when no function of that name is indexed.
    pub fn get_subfunctions_of_function(&self, function: &str) -> (r: Option<Vec<Callee>>)
        ensures
            match (r, find_name_index(self@, function@)) {
                (Some(v), Some(fi)) => ({
                    let dests = dedup_first_seen(branch_dests(self@[fi].instructions));
                    &&& v@.len() == dests.len()
                    &&& forall|k: int|
                        0 <= k < dests.len() ==> callee_resolution(
                            self@,
                            dests[k],
                            (#[trigger] v@[k])@,
                        )
                }),
                (None, None) => true,
                _ => false,
            },
    {
        let fi = match self.find_index_by_name(function) {
            Some(fi) => fi,
            None => {
                return None;
            },
        };
        proof {
            lemma_find_name_index(self@, function@);
            assert(funcs_view(self.functions@)[fi as int] == self.functions@[fi as int]@);
        }
        let ghost instrs = self@[fi as int].instructions;
        let mut seen: Vec<String> = Vec::new();
        let mut callees: Vec<Callee> = Vec::new();
        let mut k: usize = 0;
        proof {
            assert(instrs.take(0) =~= Seq::<(u32, InstructionModel)>::empty());
            assert(names_view(seen@) =~= Seq::<Seq<char>>::empty());
        }
        while k < self.functions[fi].instructions.len()
            invariant
                fi < self.functions@.len(),
                k <= self.functions@[fi as int].instructions@.len(),
                instrs == instrs_view(self.functions@[fi as int].instructions@),
                funcs_view(self.functions@) == self@,
                names_view(seen@) == dedup_first_seen(branch_dests(instrs.take(
                    k as int,
                ))),
                callees@.len() == seen@.len(),
                forall|m: int|
                    0 <= m < callees@.len() ==> callee_resolution(
                        self@,
                        names_view(seen@)[m],
                        (#[trigger] callees@[m])@,
                    ),
            decreases self.functions@[fi as int].instructions@.len() - k,
        {
            proof {
                assert(instrs.take(k + 1).drop_last() =~= instrs.take(k as int));
                assert(instrs.take(k + 1).last() == instrs[k as int]);
                assert(instrs[k as int] == (self.functions@[fi as int].instructions@[k as int].0,
                self.functions@[fi as int].instructions@[k as int].1@));
            }
            let instr = &self.functions[fi].instructions[k];
            match &instr.1 {
                Instruction::Any(_) => {
                    proof {
                        assert(branch_dests(instrs.take(k + 1)) == branch_dests(instrs.take(
                            k as int,
                        )));
                    }
                },
                Instruction::Branch { dest } => {
                    proof {
                        let bd = branch_dests(instrs.take(k as int));
                        assert(instrs[k as int].1 == InstructionModel::Branch(dest@));
                        assert(branch_dests(instrs.take(k + 1)) == bd.push(dest@));
                        assert(bd.push(dest@).drop_last() =~= bd);
                        assert(bd.push(dest@).last() == dest@);
                    }
                    let ghost seen0 = names_view(seen@);
                    let mut already: bool = false;
                    let mut m: usize = 0;
                    while m < seen.len() && !already
                        invariant
                            m <= seen@.len(),
                            seen0 == names_view(seen@),
                            already ==> seen0.contains(dest@),
                            !already ==> forall|q: int| 0 <= q < m ==> seen0[q] != dest@,
                        decreases seen@.len() - m,
                    {
                        proof {
                            assert(seen0[m as int] == seen@[m as int]@);
                        }
                        if str_eq(seen[m].as_str(), dest.as_str()) {
                            proof {
                                assert(seen0[m as int] == dest@);
                            }
                            already = true;
                            m = seen.len();
                        } else {
                            m = m + 1;
                        }
                    }
                    if !already {
                        proof {
                            assert(!seen0.contains(dest@));
                        }
                        seen.push(dest.clone());
                        proof {
                            assert(names_view(seen@) =~= seen0.push(dest@));
                        }
                        let resolved = match self.find_index_by_name(dest.as_str()) {
                            Some(j) => {
                                proof {
                                    lemma_find_name_index(self@, dest@);
                                    assert(funcs_view(self.functions@)[j as int]
                                        == self.functions@[j as int]@);
                                }
                                Callee::Resolved(self.functions[j].clone())
                            },
                            None => Callee::Unresolved(dest.clone()),
                        };
                        callees.push(resolved);
                    }
                },
            }
            k = k + 1;
        }
        proof {
            assert(instrs.take(self.functions@[fi as int].instructions@.len() as int) =~= instrs);
        }
        Some(callees)
    }
}

} // verus!
