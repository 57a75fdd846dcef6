//! The matching machine: bytecode instructions and their interpreter.
//!
//! The machine runs a program over one sentence's slice of the columnar
//! body, from every start position in turn.  `Split` backtracks depth
//! first, always trying its first target before its second, which makes
//! union left-preferring and star greedy.  A step budget (`VM_FUEL`) keeps
//! the interpreter total on programs whose jumps never make progress; the
//! budget is far beyond what any terminating search can use up.

use vstd::prelude::*;
use crate::{COLS, FeatId};
use crate::index::{BodyTable, IndexData, wf_body, spec_index_consistent};
use crate::util::{bytes_eq, split_bytes};

verus! {

broadcast use crate::util::lemma_vec_u32_deep_view, crate::util::lemma_vec_u8_deep_view;

/// One bytecode instruction.  `pc` operands are absolute indices into the
/// instruction vector.
#[derive(Clone, Copy, Debug, PartialEq, Eq, Structural)]
pub enum InstCode {
    /// Fail this path unless the current row's feature ID at the column
    /// equals the operand.
    Expect(usize, FeatId),
    /// Report a match ending at the current row.
    Match,
    /// Continue at the operand instruction.
    Jump(usize),
    /// Advance to the next row.
    Next,
    /// Try the first target; if it finds no match, try the second.
    Split(usize, usize),
    /// Do nothing.
    Noop,
}

/// Every `Expect` of the program names a real column.
pub open spec fn wf_program(prog: Seq<InstCode>) -> bool {
    forall|i: int|
        0 <= i < prog.len() ==> ((#[trigger] prog[i]) matches InstCode::Expect(col, _) ==> col
            < COLS)
}

/// Decides [`wf_program`], so that a caller can reject raw bytecode whose
/// column operands are out of range before running it.
pub fn check_program(insts: &Vec<InstCode>) -> (r: bool)
    ensures
        r == wf_program(insts@),
{
    let mut i: usize = 0;
    while i < insts.len()
        invariant
            0 <= i <= insts.len(),
            forall|j: int|
                0 <= j < i ==> ((#[trigger] insts@[j]) matches InstCode::Expect(col, _) ==> col
                    < COLS),
        decreases insts.len() - i,
    {
        if let InstCode::Expect(col, _feat) = insts[i] {
            if col >= COLS {
                return false;
            }
        }
        i += 1;
    }
    true
}

/// Step budget for one run of the interpreter: 2^64 - 1 steps, beyond any
/// terminating search on real data.
pub const VM_FUEL: u64 = u64::MAX;

/// A raw bytecode token that is not a well-formed instruction, with its
/// index in the input.
#[derive(Clone, Copy, Debug, PartialEq, Eq, Structural)]
pub struct OpcodeError {
    pub index: usize,
}

/// The byte strings naming each opcode in raw bytecode input.
pub open spec fn spec_op_expect() -> Seq<u8> {
    seq![69u8, 120, 112, 101, 99, 116]
}

pub open spec fn spec_op_match() -> Seq<u8> {
    seq![77u8, 97, 116, 99, 104]
}

pub open spec fn spec_op_jump() -> Seq<u8> {
    seq![74u8, 117, 109, 112]
}

pub open spec fn spec_op_next() -> Seq<u8> {
    seq![78u8, 101, 120, 116]
}

pub open spec fn spec_op_split() -> Seq<u8> {
    seq![83u8, 112, 108, 105, 116]
}

pub open spec fn spec_op_noop() -> Seq<u8> {
    seq![78u8, 111, 111, 112]
}

/// The number a whole token denotes, within a bound: every byte must be a
/// digit and the value must fit.
pub open spec fn spec_token_number(t: Seq<u8>, bound: int) -> Option<int> {
    if t.len() > 0 && (forall|j: int| 0 <= j < t.len() ==> crate::compiler::spec_is_digit(
        #[trigger] t[j],
    )) && crate::compiler::spec_decimal_value(t) <= bound {
        Some(crate::compiler::spec_decimal_value(t))
    } else {
        None
    }
}

/// The instruction one raw token denotes: an opcode name and its
/// colon-separated decimal operands, as in `Expect:3:17`.  Extra operands
/// are ignored, a missing or malformed one makes the token unusable.
pub open spec fn spec_parse_inst(tok: Seq<u8>) -> Option<InstCode> {
    let parts = crate::util::spec_split(tok, 58);
    if parts[0] == spec_op_match() {
        Some(InstCode::Match)
    } else if parts[0] == spec_op_jump() {
        if parts.len() >= 2 && spec_token_number(parts[1], usize::MAX as int) is Some {
            Some(InstCode::Jump(spec_token_number(parts[1], usize::MAX as int)->0 as usize))
        } else {
            None
        }
    } else if parts[0] == spec_op_expect() {
        if parts.len() >= 3 && spec_token_number(parts[1], usize::MAX as int) is Some
            && spec_token_number(parts[2], u32::MAX as int) is Some {
            Some(
                InstCode::Expect(
                    spec_token_number(parts[1], usize::MAX as int)->0 as usize,
                    spec_token_number(parts[2], u32::MAX as int)->0 as u32,
                ),
            )
        } else {
            None
        }
    } else if parts[0] == spec_op_split() {
        if parts.len() >= 3 && spec_token_number(parts[1], usize::MAX as int) is Some
            && spec_token_number(parts[2], usize::MAX as int) is Some {
            Some(
                InstCode::Split(
                    spec_token_number(parts[1], usize::MAX as int)->0 as usize,
                    spec_token_number(parts[2], usize::MAX as int)->0 as usize,
                ),
            )
        } else {
            None
        }
    } else if parts[0] == spec_op_next() {
        Some(InstCode::Next)
    } else if parts[0] == spec_op_noop() {
        Some(InstCode::Noop)
    } else {
        None
    }
}

/// The program a run of raw tokens denotes: every token must denote an
/// instruction.
pub open spec fn spec_parse_insts(toks: Seq<Seq<u8>>) -> Option<Seq<InstCode>>
    decreases toks.len(),
{
    if toks.len() == 0 {
        Some(Seq::empty())
    } else {
        match (spec_parse_insts(toks.drop_last()), spec_parse_inst(toks.last())) {
            (Some(v), Some(i)) => Some(v.push(i)),
            _ => None,
        }
    }
}

/// One malformed token spoils the whole program.
proof fn lemma_parse_insts_none(toks: Seq<Seq<u8>>, idx: int)
    requires
        0 <= idx < toks.len(),
        spec_parse_inst(toks[idx]) is None,
    ensures
        spec_parse_insts(toks) is None,
    decreases toks.len(),
{
    if idx < toks.len() - 1 {
        assert(toks.drop_last()[idx] == toks[idx]);
        lemma_parse_insts_none(toks.drop_last(), idx);
    }
}

/// The first `n` of six bytes, for spelling out an opcode name.
fn opcode_bytes(a: u8, b: u8, c: u8, d: u8, e: u8, f: u8, n: usize) -> (r: Vec<u8>)
    requires
        4 <= n <= 6,
    ensures
        r@ == seq![a, b, c, d, e, f].take(n as int),
{
    let mut v: Vec<u8> = Vec::new();
    v.push(a);
    v.push(b);
    v.push(c);
    v.push(d);
    if n >= 5 {
        v.push(e);
    }
    if n >= 6 {
        v.push(f);
    }
    proof {
        assert(v@ =~= seq![a, b, c, d, e, f].take(n as int));
    }
    v
}

/// Reads a whole token as a decimal number no larger than `bound`.
fn token_number(t: &[u8], bound: u64) -> (r: Option<u64>)
    ensures
        match r {
            Some(v) => spec_token_number(t@, bound as int) == Some(v as int),
            None => spec_token_number(t@, bound as int) is None,
        },
{
    if t.len() == 0 {
        return None;
    }
    let mut j: usize = 0;
    while j < t.len()
        invariant
            0 <= j <= t@.len(),
            forall|k: int| 0 <= k < j ==> crate::compiler::spec_is_digit(#[trigger] t@[k]),
        decreases t@.len() - j,
    {
        if !(48 <= t[j] && t[j] <= 57) {
            return None;
        }
        j += 1;
    }
    let mut acc: u128 = 0;
    let mut j: usize = 0;
    proof {
        assert(t@.take(0) =~= Seq::<u8>::empty());
    }
    while j < t.len()
        invariant
            0 <= j <= t@.len(),
            forall|k: int| 0 <= k < t@.len() ==> crate::compiler::spec_is_digit(#[trigger] t@[k]),
            acc == crate::compiler::spec_decimal_value(t@.take(j as int)),
            acc <= bound,
            bound <= u64::MAX,
        decreases t@.len() - j,
    {
        let d = t[j] - 48;
        acc = acc * 10 + (d as u128);
        proof {
            assert(t@.take(j + 1).drop_last() =~= t@.take(j as int));
            assert(t@.take(j + 1).last() == t@[j as int]);
        }
        j += 1;
        if acc > bound as u128 {
            proof {
                crate::compiler::lemma_decimal_prefix_le(t@, j as int);
            }
            return None;
        }
    }
    proof {
        assert(t@.take(t@.len() as int) =~= t@);
    }
    Some(acc as u64)
}

/// What running the bytecode from one configuration yields.
#[derive(Clone, Copy, Debug, PartialEq, Eq, Structural)]
pub enum RunOutcome {
    /// A match that ends at the carried sentence-local row.
    Matched(usize),
    /// This path finds no match.
    NoMatch,
    /// The step budget ran out before the search finished.
    Exhausted,
}

/// One match, as row positions: the enclosing sentence's absolute row range
/// `begin..end`, and the sentence-local match range `sp..end_sp`.
#[derive(Clone, Copy, Debug, PartialEq, Eq, Structural)]
pub struct MatchSpan {
    pub begin: usize,
    pub end: usize,
    pub sp: usize,
    pub end_sp: usize,
}

/// The interpreter's meaning: what running `prog` over the sentence slice
/// `cols`, at instruction `pc` and row `sp` with `fuel` steps left, yields.
///
/// The machine stops with no match as soon as the row or the instruction
/// pointer leaves its range, so `Match` reports only while `sp` is still
/// inside the sentence.
pub open spec fn spec_int_exec(
    prog: Seq<InstCode>,
    cols: Seq<Seq<FeatId>>,
    pc: int,
    sp: int,
    fuel: nat,
) -> RunOutcome
    decreases fuel,
{
    if fuel == 0 {
        RunOutcome::Exhausted
    } else if !(0 <= sp < cols[0].len() && 0 <= pc < prog.len()) {
        RunOutcome::NoMatch
    } else {
        match prog[pc] {
            InstCode::Expect(col, feat) => if cols[col as int][sp] == feat {
                spec_int_exec(prog, cols, pc + 1, sp, (fuel - 1) as nat)
            } else {
                RunOutcome::NoMatch
            },
            InstCode::Next => spec_int_exec(prog, cols, pc + 1, sp + 1, (fuel - 1) as nat),
            InstCode::Jump(target) => spec_int_exec(prog, cols, target as int, sp, (fuel - 1) as nat),
            InstCode::Split(x, y) => {
                let first = spec_int_exec(prog, cols, x as int, sp, (fuel - 1) as nat);
                if first is NoMatch {
                    spec_int_exec(prog, cols, y as int, sp, (fuel - 1) as nat)
                } else {
                    first
                }
            },
            InstCode::Match => RunOutcome::Matched(sp as usize),
            InstCode::Noop => spec_int_exec(prog, cols, pc + 1, sp, (fuel - 1) as nat),
        }
    }
}

/// The match end reported from start position `sp` of a sentence slice,
/// under the full step budget.
pub open spec fn spec_match_at(prog: Seq<InstCode>, cols: Seq<Seq<FeatId>>, sp: int) -> Option<usize> {
    match spec_int_exec(prog, cols, 0, sp, VM_FUEL as nat) {
        RunOutcome::Matched(e) => Some(e),
        _ => None,
    }
}

/// One sentence's slice of the whole body: rows `begin..end` of every column.
pub open spec fn spec_sentence_slice(cols: Seq<Seq<FeatId>>, begin: int, end: int) -> Seq<Seq<FeatId>> {
    Seq::new(cols.len(), |c: int| cols[c].subrange(begin, end))
}

/// All matches found in the sentence `begin..end` at start positions `sp`
/// and up, in start-position order.
pub open spec fn spec_sentence_matches(
    prog: Seq<InstCode>,
    cols: Seq<Seq<FeatId>>,
    begin: int,
    end: int,
    sp: int,
) -> Seq<MatchSpan>
    decreases end - begin - sp,
{
    if sp < 0 || sp >= end - begin {
        Seq::empty()
    } else {
        (match spec_match_at(prog, spec_sentence_slice(cols, begin, end), sp) {
            Some(end_sp) => seq![
                MatchSpan {
                    begin: begin as usize,
                    end: end as usize,
                    sp: sp as usize,
                    end_sp,
                },
            ],
            None => Seq::empty(),
        }) + spec_sentence_matches(prog, cols, begin, end, sp + 1)
    }
}

/// All matches of a query over the whole body, from sentence `si` on, in
/// `(sentence, start position)` order.
pub open spec fn spec_all_matches(
    prog: Seq<InstCode>,
    cols: Seq<Seq<FeatId>>,
    spans: Seq<(u32, u32)>,
    si: int,
) -> Seq<MatchSpan>
    decreases spans.len() - si,
{
    if si < 0 || si >= spans.len() {
        Seq::empty()
    } else {
        spec_sentence_matches(prog, cols, spans[si].0 as int, spans[si].1 as int, 0)
            + spec_all_matches(prog, cols, spans, si + 1)
    }
}

/// The matches a query reports: all of them, or the first `k` when a limit
/// `k` is set.
pub open spec fn spec_limited_matches(
    prog: Seq<InstCode>,
    cols: Seq<Seq<FeatId>>,
    spans: Seq<(u32, u32)>,
    limit: Option<usize>,
) -> Seq<MatchSpan> {
    let all = spec_all_matches(prog, cols, spans, 0);
    match limit {
        None => all,
        Some(k) => if all.len() <= k {
            all
        } else {
            all.take(k as int)
        },
    }
}

/// The matching machine: a program, the body it scans, and the loaded
/// dictionaries and sentence spans.
pub struct VM {
    pub inst_seq: Vec<InstCode>,
    pub input: BodyTable,
    pub index_data: IndexData,
}

impl VM {
    pub fn new(inst_seq: Vec<InstCode>, input: BodyTable, index_data: IndexData) -> (r: VM)
        ensures
            r.inst_seq == inst_seq,
            r.input == input,
            r.index_data == index_data,
    {
        VM { inst_seq, input, index_data }
    }

    /// Runs the bytecode over one sentence slice from `(pc, sp)`.
    fn int_exec(&self, sentence: &BodyTable, pc: usize, sp: usize, fuel: u64) -> (r: RunOutcome)
        requires
            wf_program(self.inst_seq@),
            wf_body(sentence.view_cols()),
        ensures
            r == spec_int_exec(
                self.inst_seq@,
                sentence.view_cols(),
                pc as int,
                sp as int,
                fuel as nat,
            ),
        decreases fuel,
    {
        let ghost prog = self.inst_seq@;
        let ghost cols = sentence.view_cols();
        let ghost fuel0 = fuel;
        let ghost pc0 = pc;
        let ghost sp0 = sp;
        let mut pc = pc;
        let mut sp = sp;
        let mut fuel = fuel;
        loop
            invariant
                fuel <= fuel0,
                wf_program(prog),
                wf_body(cols),
                spec_int_exec(prog, cols, pc0 as int, sp0 as int, fuel0 as nat) == spec_int_exec(
                    prog,
                    cols,
                    pc as int,
                    sp as int,
                    fuel as nat,
                ),
            decreases fuel,
        {
            if fuel == 0 {
                return RunOutcome::Exhausted;
            }
            let sentence_len = sentence.len();
            if !(sp < sentence_len && pc < self.inst_seq.len()) {
                return RunOutcome::NoMatch;
            }
            let inst = self.inst_seq[pc];
            fuel = fuel - 1;
            match inst {
                InstCode::Expect(col, feat) => {
                    proof {
                        assert(cols[col as int].len() == cols[0].len());
                    }
                    if sentence.columns[col][sp] == feat {
                        pc = pc + 1;
                    } else {
                        return RunOutcome::NoMatch;
                    }
                },
                InstCode::Next => {
                    sp = sp + 1;
                    pc = pc + 1;
                },
                InstCode::Jump(target) => {
                    pc = target;
                },
                InstCode::Split(x, y) => {
                    let first = self.int_exec(sentence, x, sp, fuel);
                    if let RunOutcome::NoMatch = first {
                        return self.int_exec(sentence, y, sp, fuel);
                    }
                    return first;
                },
                InstCode::Match => {
                    return RunOutcome::Matched(sp);
                },
                InstCode::Noop => {
                    pc = pc + 1;
                },
            }
        }
    }

    /// Enumerates the matches of the program over the whole body, sentence
    /// by sentence and start position by start position, stopping once the
    /// limit is reached when one is set.
    pub fn find_matches(&self, limit: Option<usize>) -> (r: Vec<MatchSpan>)
        requires
            wf_program(self.inst_seq@),
            spec_index_consistent(
                self.input.view_cols(),
                self.index_data.features_per_column.deep_view(),
                self.index_data.sentence_index@,
            ),
        ensures
            r@ == spec_limited_matches(
                self.inst_seq@,
                self.input.view_cols(),
                self.index_data.sentence_index@,
                limit,
            ),
    {
        let ghost prog = self.inst_seq@;
        let ghost cols = self.input.view_cols();
        let ghost spans = self.index_data.sentence_index@;
        let ghost all = spec_all_matches(prog, cols, spans, 0);
        let mut out: Vec<MatchSpan> = Vec::new();
        if let Some(k) = limit {
            if k == 0 {
                proof {
                    assert(all.take(0) =~= out@);
                }
                return out;
            }
        }
        let mut si: usize = 0;
        proof {
            assert(out@ + spec_all_matches(prog, cols, spans, 0) =~= all);
        }
        while si < self.index_data.sentence_index.len()
            invariant
                0 <= si <= spans.len(),
                all == out@ + spec_all_matches(prog, cols, spans, si as int),
                limit matches Some(k) ==> out@.len() < k,
            decreases spans.len() - si,
        {
            let (begin32, end32) = self.index_data.sentence_index[si];
            let begin = begin32 as usize;
            let end = end32 as usize;
            proof {
                assert(spans[si as int].0 <= spans[si as int].1 && spans[si as int].1
                    <= cols[0].len());
            }
            let sentence = self.input.slice(begin, end);
            proof {
                assert(sentence.view_cols() =~= spec_sentence_slice(
                    cols,
                    begin as int,
                    end as int,
                ));
            }
            let slen = sentence.len();
            let ghost sent_all = spec_sentence_matches(prog, cols, begin as int, end as int, 0);
            proof {
                assert(all == out@ + (sent_all + spec_all_matches(prog, cols, spans, si as int + 1)));
                assert(out@ + (sent_all + spec_all_matches(prog, cols, spans, si as int + 1)) =~= (
                out@ + sent_all) + spec_all_matches(prog, cols, spans, si as int + 1));
            }
            let mut sp: usize = 0;
            while sp < slen
                invariant
                    0 <= sp <= slen,
                    all == (out@ + spec_sentence_matches(
                        prog,
                        cols,
                        begin as int,
                        end as int,
                        sp as int,
                    )) + spec_all_matches(prog, cols, spans, si as int + 1),
                    limit matches Some(k) ==> out@.len() < k,
                decreases slen - sp,
            {
                let ghost here = spec_sentence_matches(prog, cols, begin as int, end as int, sp as int);
                let ghost rest = spec_sentence_matches(
                    prog,
                    cols,
                    begin as int,
                    end as int,
                    sp as int + 1,
                );
                let ret = self.int_exec(&sentence, 0, sp, VM_FUEL);
                if let RunOutcome::Matched(end_sp) = ret {
                    let m = MatchSpan { begin, end, sp, end_sp };
                    let ghost out_before = out@;
                    out.push(m);
                    proof {
                        assert(here == seq![m] + rest);
                        assert(out@ + rest =~= out_before + here);
                    }
                    if let Some(k) = limit {
                        if out.len() >= k {
                            proof {
                                assert(out@.len() == k);
                                assert(all.len() >= k);
                                assert(spec_limited_matches(prog, cols, spans, limit) =~= out@);
                            }
                            return out;
                        }
                    }
                } else {
                    proof {
                        assert(here == rest);
                    }
                }
                sp += 1;
            }
            proof {
                assert(spec_sentence_matches(prog, cols, begin as int, end as int, slen as int)
                    =~= Seq::<MatchSpan>::empty());
                assert((out@ + Seq::<MatchSpan>::empty()) =~= out@);
            }
            si += 1;
        }
        proof {
            assert(spec_all_matches(prog, cols, spans, spans.len() as int)
                =~= Seq::<MatchSpan>::empty());
            assert(out@ =~= all);
            if limit is Some {
                assert(all.len() < limit->0);
            }
        }
        out
    }

    /// Runs the query and formats every reported match as one output line:
    /// the sentence's column-0 feature strings, split as
    /// `<prefix>\t<match>\t<suffix>\n` around the matched rows.
    pub fn exec(&self, limit: Option<usize>) -> (r: Vec<u8>)
        requires
            wf_program(self.inst_seq@),
            spec_index_consistent(
                self.input.view_cols(),
                self.index_data.features_per_column.deep_view(),
                self.index_data.sentence_index@,
            ),
        ensures
            r@ == spec_exec_output(
                self.inst_seq@,
                self.input.view_cols(),
                self.index_data.features_per_column.deep_view(),
                self.index_data.sentence_index@,
                limit,
            ),
    {
        let ghost prog = self.inst_seq@;
        let ghost cols = self.input.view_cols();
        let ghost spans = self.index_data.sentence_index@;
        let n_rows = self.input.len();
        let matches = self.find_matches(limit);
        proof {
            assert(cols[0].len() == n_rows);
            lemma_all_matches_wf(prog, cols, spans, 0);
            let all = spec_all_matches(prog, cols, spans, 0);
            assert forall|i: int| 0 <= i < matches@.len() implies spec_match_wf(
                matches@[i],
                cols[0].len() as int,
            ) by {
                assert(matches@[i] == all[i]);
            }
        }
        self.render_matches(&matches)
    }

    /// Reads a program from raw opcode tokens, one instruction per token,
    /// as in `Expect:3:17`.  A token naming no opcode, or missing a
    /// decimal operand, fails the whole program.
    pub fn parse(input: &Vec<Vec<u8>>) -> (r: Result<Vec<InstCode>, OpcodeError>)
        ensures
            r matches Ok(v) ==> spec_parse_insts(input.deep_view()) == Some(v@),
            r is Err <==> spec_parse_insts(input.deep_view()) is None,
    {
        let ghost tv = input.deep_view();
        let op_expect = opcode_bytes(69, 120, 112, 101, 99, 116, 6);
        let op_match = opcode_bytes(77, 97, 116, 99, 104, 0, 5);
        let op_jump = opcode_bytes(74, 117, 109, 112, 0, 0, 4);
        let op_next = opcode_bytes(78, 101, 120, 116, 0, 0, 4);
        let op_split = opcode_bytes(83, 112, 108, 105, 116, 0, 5);
        let op_noop = opcode_bytes(78, 111, 111, 112, 0, 0, 4);
        proof {
            assert(op_expect@ =~= spec_op_expect());
            assert(op_match@ =~= spec_op_match());
            assert(op_jump@ =~= spec_op_jump());
            assert(op_next@ =~= spec_op_next());
            assert(op_split@ =~= spec_op_split());
            assert(op_noop@ =~= spec_op_noop());
        }
        let mut out: Vec<InstCode> = Vec::new();
        let mut idx: usize = 0;
        proof {
            assert(tv.take(0) =~= Seq::<Seq<u8>>::empty());
            assert(out@ =~= Seq::<InstCode>::empty());
        }
        while idx < input.len()
            invariant
                0 <= idx <= input@.len(),
                tv == input.deep_view(),
                tv.len() == input@.len(),
                op_expect@ == spec_op_expect(),
                op_match@ == spec_op_match(),
                op_jump@ == spec_op_jump(),
                op_next@ == spec_op_next(),
                op_split@ == spec_op_split(),
                op_noop@ == spec_op_noop(),
                spec_parse_insts(tv.take(idx as int)) == Some(out@),
            decreases input@.len() - idx,
        {
            let tok: &Vec<u8> = &input[idx];
            proof {
                assert(tok.deep_view() =~= tok@);
                assert(tv[idx as int] == tok@);
            }
            let parts = split_bytes(tok.as_slice(), 58);
            let ghost pv = crate::util::spec_split(tok@, 58);
            proof {
                assert(parts.deep_view() == pv);
                assert(pv.len() >= 1);
                assert(parts.deep_view()[0] == parts@[0]@);
            }
            let head: &Vec<u8> = &parts[0];
            let inst_opt: Option<InstCode> = if bytes_eq(head.as_slice(), op_match.as_slice()) {
                Some(InstCode::Match)
            } else if bytes_eq(head.as_slice(), op_jump.as_slice()) {
                if parts.len() >= 2 {
                    proof {
                        assert(parts.deep_view()[1] == parts@[1]@);
                    }
                    match token_number(parts[1].as_slice(), usize::MAX as u64) {
                        Some(v) => Some(InstCode::Jump(v as usize)),
                        None => None,
                    }
                } else {
                    None
                }
            } else if bytes_eq(head.as_slice(), op_expect.as_slice()) {
                if parts.len() >= 3 {
                    proof {
                        assert(parts.deep_view()[1] == parts@[1]@);
                        assert(parts.deep_view()[2] == parts@[2]@);
                    }
                    match token_number(parts[1].as_slice(), usize::MAX as u64) {
                        Some(c) => match token_number(parts[2].as_slice(), u32::MAX as u64) {
                            Some(f) => Some(InstCode::Expect(c as usize, f as u32)),
                            None => None,
                        },
                        None => None,
                    }
                } else {
                    None
                }
            } else if bytes_eq(head.as_slice(), op_split.as_slice()) {
                if parts.len() >= 3 {
                    proof {
                        assert(parts.deep_view()[1] == parts@[1]@);
                        assert(parts.deep_view()[2] == parts@[2]@);
                    }
                    match token_number(parts[1].as_slice(), usize::MAX as u64) {
                        Some(x) => match token_number(parts[2].as_slice(), usize::MAX as u64) {
                            Some(y) => Some(InstCode::Split(x as usize, y as usize)),
                            None => None,
                        },
                        None => None,
                    }
                } else {
                    None
                }
            } else if bytes_eq(head.as_slice(), op_next.as_slice()) {
                Some(InstCode::Next)
            } else if bytes_eq(head.as_slice(), op_noop.as_slice()) {
                Some(InstCode::Noop)
            } else {
                None
            };
            proof {
                assert(inst_opt == spec_parse_inst(tv[idx as int]));
            }
            match inst_opt {
                Some(inst) => {
                    out.push(inst);
                    proof {
                        assert(tv.take(idx + 1).drop_last() =~= tv.take(idx as int));
                        assert(tv.take(idx + 1).last() == tv[idx as int]);
                    }
                },
                None => {
                    proof {
                        lemma_parse_insts_none(tv, idx as int);
                    }
                    return Err(OpcodeError { index: idx });
                },
            }
            idx += 1;
        }
        proof {
            assert(tv.take(tv.len() as int) =~= tv);
        }
        Ok(out)
    }

    /// Formats a run of matches, one line each.
    fn render_matches(&self, matches: &Vec<MatchSpan>) -> (r: Vec<u8>)
        requires
            spec_index_consistent(
                self.input.view_cols(),
                self.index_data.features_per_column.deep_view(),
                self.index_data.sentence_index@,
            ),
            forall|i: int|
                0 <= i < matches@.len() ==> spec_match_wf(
                    #[trigger] matches@[i],
                    self.input.view_cols()[0].len() as int,
                ),
        ensures
            r@ == spec_render(
                self.index_data.features_per_column.deep_view()[0],
                self.input.view_cols()[0],
                matches@,
            ),
    {
        let ghost feats0 = self.index_data.features_per_column.deep_view()[0];
        let ghost col0 = self.input.view_cols()[0];
        let dict: &Vec<Vec<u8>> = &self.index_data.features_per_column[0];
        let column: &Vec<FeatId> = &self.input.columns[0];
        proof {
            assert(dict.deep_view() == feats0);
            assert(column@ == col0);
            assert forall|r: int| 0 <= r < col0.len() implies (#[trigger] col0[r])
                < feats0.len() by {
                assert(self.input.view_cols()[0][r] < self.index_data.features_per_column.deep_view()[0].len());
            }
        }
        let mut out: Vec<u8> = Vec::new();
        let mut i: usize = 0;
        proof {
            assert(matches@.take(0) =~= Seq::<MatchSpan>::empty());
        }
        while i < matches.len()
            invariant
                0 <= i <= matches.len(),
                out@ == spec_render(feats0, col0, matches@.take(i as int)),
            decreases matches.len() - i,
        {
            let m = matches[i];
            append_surfaces(dict, column, m.begin, m.begin + m.sp, &mut out);
            out.push(9);
            append_surfaces(dict, column, m.begin + m.sp, m.begin + m.end_sp, &mut out);
            out.push(9);
            append_surfaces(dict, column, m.begin + m.end_sp, m.end, &mut out);
            out.push(10);
            proof {
                assert(matches@.take(i + 1).drop_last() =~= matches@.take(i as int));
                assert(matches@.take(i + 1).last() == matches@[i as int]);
                assert(out@ =~= spec_render(feats0, col0, matches@.take(i as int))
                    + spec_render_line(feats0, col0, matches@[i as int]));
            }
            i += 1;
        }
        proof {
            assert(matches@.take(matches@.len() as int) =~= matches@);
        }
        out
    }
}

/// A match names a row range that lies inside its sentence, which in turn
/// lies inside a body of `n` rows.
pub open spec fn spec_match_wf(m: MatchSpan, n: int) -> bool {
    &&& m.begin <= m.end <= n
    &&& m.sp <= m.end_sp <= m.end - m.begin
}

/// The concatenated feature strings of a run of feature IDs.
pub open spec fn spec_concat_surfaces(feats0: Seq<Seq<u8>>, ids: Seq<FeatId>) -> Seq<u8>
    decreases ids.len(),
{
    if ids.len() == 0 {
        Seq::empty()
    } else {
        spec_concat_surfaces(feats0, ids.drop_last()) + feats0[ids.last() as int]
    }
}

/// One output line: the sentence's surfaces before the match, a tab, the
/// matched surfaces, a tab, the surfaces after the match, a newline.
pub open spec fn spec_render_line(feats0: Seq<Seq<u8>>, col0: Seq<FeatId>, m: MatchSpan) -> Seq<u8> {
    spec_concat_surfaces(feats0, col0.subrange(m.begin as int, m.begin + m.sp)) + seq![9u8]
        + spec_concat_surfaces(feats0, col0.subrange(m.begin + m.sp, m.begin + m.end_sp))
        + seq![9u8] + spec_concat_surfaces(feats0, col0.subrange(m.begin + m.end_sp, m.end as int))
        + seq![10u8]
}

/// The lines of a run of matches, in order.
pub open spec fn spec_render(feats0: Seq<Seq<u8>>, col0: Seq<FeatId>, ms: Seq<MatchSpan>) -> Seq<u8>
    decreases ms.len(),
{
    if ms.len() == 0 {
        Seq::empty()
    } else {
        spec_render(feats0, col0, ms.drop_last()) + spec_render_line(feats0, col0, ms.last())
    }
}

/// Everything one query writes: the rendering of its reported matches.
pub open spec fn spec_exec_output(
    prog: Seq<InstCode>,
    cols: Seq<Seq<FeatId>>,
    feats: Seq<Seq<Seq<u8>>>,
    spans: Seq<(u32, u32)>,
    limit: Option<usize>,
) -> Seq<u8> {
    spec_render(feats[0], cols[0], spec_limited_matches(prog, cols, spans, limit))
}

/// Appends the feature strings of column-0 rows `from..to`.
fn append_surfaces(
    dict: &Vec<Vec<u8>>,
    column: &Vec<FeatId>,
    from: usize,
    to: usize,
    out: &mut Vec<u8>,
)
    requires
        from <= to <= column@.len(),
        forall|r: int| 0 <= r < column@.len() ==> (#[trigger] column@[r]) < dict.deep_view().len(),
    ensures
        final(out)@ == old(out)@ + spec_concat_surfaces(
            dict.deep_view(),
            column@.subrange(from as int, to as int),
        ),
{
    let ghost feats0 = dict.deep_view();
    let mut r: usize = from;
    proof {
        assert(column@.subrange(from as int, from as int) =~= Seq::<FeatId>::empty());
        assert(old(out)@ =~= old(out)@ + spec_concat_surfaces(
            feats0,
            column@.subrange(from as int, from as int),
        ));
    }
    while r < to
        invariant
            from <= r <= to,
            out@ == old(out)@ + spec_concat_surfaces(
                feats0,
                column@.subrange(from as int, r as int),
            ),
        decreases to - r,
    {
        let id = column[r] as usize;
        let feat: &Vec<u8> = &dict[id];
        let ghost before = out@;
        let mut j: usize = 0;
        while j < feat.len()
            invariant
                0 <= j <= feat.len(),
                out@ == before + feat@.take(j as int),
            decreases feat.len() - j,
        {
            out.push(feat[j]);
            proof {
                assert(feat@.take(j + 1) =~= feat@.take(j as int).push(feat@[j as int]));
            }
            j += 1;
        }
        proof {
            assert(feat@.take(feat@.len() as int) =~= feat@);
            assert(feat@ == feats0[column@[r as int] as int]);
            assert(column@.subrange(from as int, r as int + 1).drop_last() =~= column@.subrange(
                from as int,
                r as int,
            ));
            assert(column@.subrange(from as int, r as int + 1).last() == column@[r as int]);
        }
        r += 1;
    }
}

/// A reported match ends at or after its start, strictly inside the
/// sentence slice it ran over.
proof fn lemma_int_exec_bounds(
    prog: Seq<InstCode>,
    cols: Seq<Seq<FeatId>>,
    pc: int,
    sp: int,
    fuel: nat,
    e: usize,
)
    requires
        cols[0].len() <= usize::MAX,
        spec_int_exec(prog, cols, pc, sp, fuel) == RunOutcome::Matched(e),
    ensures
        0 <= sp <= e < cols[0].len(),
    decreases fuel,
{
    if fuel > 0 && 0 <= sp < cols[0].len() && 0 <= pc < prog.len() {
        match prog[pc] {
            InstCode::Expect(col, feat) => {
                if cols[col as int][sp] == feat {
                    lemma_int_exec_bounds(prog, cols, pc + 1, sp, (fuel - 1) as nat, e);
                }
            },
            InstCode::Next => {
                lemma_int_exec_bounds(prog, cols, pc + 1, sp + 1, (fuel - 1) as nat, e);
            },
            InstCode::Jump(target) => {
                lemma_int_exec_bounds(prog, cols, target as int, sp, (fuel - 1) as nat, e);
            },
            InstCode::Split(x, y) => {
                let first = spec_int_exec(prog, cols, x as int, sp, (fuel - 1) as nat);
                if first is NoMatch {
                    lemma_int_exec_bounds(prog, cols, y as int, sp, (fuel - 1) as nat, e);
                } else {
                    lemma_int_exec_bounds(prog, cols, x as int, sp, (fuel - 1) as nat, e);
                }
            },
            InstCode::Match => {},
            InstCode::Noop => {
                lemma_int_exec_bounds(prog, cols, pc + 1, sp, (fuel - 1) as nat, e);
            },
        }
    }
}

/// Every match found in one sentence lies inside that sentence.
proof fn lemma_sentence_matches_wf(
    prog: Seq<InstCode>,
    cols: Seq<Seq<FeatId>>,
    begin: int,
    end: int,
    sp: int,
    n: int,
)
    requires
        0 <= begin <= end <= n <= usize::MAX,
        cols.len() > 0,
        cols[0].len() == n,
    ensures
        forall|i: int|
            0 <= i < spec_sentence_matches(prog, cols, begin, end, sp).len() ==> spec_match_wf(
                #[trigger] spec_sentence_matches(prog, cols, begin, end, sp)[i],
                n,
            ),
    decreases end - begin - sp,
{
    if 0 <= sp < end - begin {
        lemma_sentence_matches_wf(prog, cols, begin, end, sp + 1, n);
        let sent = spec_sentence_slice(cols, begin, end);
        assert(sent[0] == cols[0].subrange(begin, end));
        let whole = spec_sentence_matches(prog, cols, begin, end, sp);
        let tail = spec_sentence_matches(prog, cols, begin, end, sp + 1);
        match spec_match_at(prog, sent, sp) {
            Some(end_sp) => {
                lemma_int_exec_bounds(prog, sent, 0, sp, VM_FUEL as nat, end_sp);
                let m = MatchSpan {
                    begin: begin as usize,
                    end: end as usize,
                    sp: sp as usize,
                    end_sp,
                };
                assert(whole == seq![m] + tail);
                assert(spec_match_wf(m, n));
                assert forall|i: int| 0 <= i < whole.len() implies spec_match_wf(
                    #[trigger] whole[i],
                    n,
                ) by {
                    if i > 0 {
                        assert(whole[i] == tail[i - 1]);
                    }
                }
            },
            None => {
                assert(whole == Seq::<MatchSpan>::empty() + tail);
                assert forall|i: int| 0 <= i < whole.len() implies spec_match_wf(
                    #[trigger] whole[i],
                    n,
                ) by {
                    assert(whole[i] == tail[i]);
                }
            },
        }
    }
}

/// Law: sentence-local scoping.  Every match that the machine reports lies
/// inside the row range of the sentence it was found in: matches never span
/// a sentence boundary.
pub proof fn lemma_all_matches_wf(
    prog: Seq<InstCode>,
    cols: Seq<Seq<FeatId>>,
    spans: Seq<(u32, u32)>,
    si: int,
)
    requires
        cols.len() > 0,
        cols[0].len() <= usize::MAX,
        forall|s: int|
            0 <= s < spans.len() ==> (#[trigger] spans[s]).0 <= spans[s].1 && spans[s].1
                <= cols[0].len(),
    ensures
        forall|i: int|
            0 <= i < spec_all_matches(prog, cols, spans, si).len() ==> spec_match_wf(
                #[trigger] spec_all_matches(prog, cols, spans, si)[i],
                cols[0].len() as int,
            ),
    decreases spans.len() - si,
{
    if 0 <= si < spans.len() {
        lemma_all_matches_wf(prog, cols, spans, si + 1);
        lemma_sentence_matches_wf(
            prog,
            cols,
            spans[si].0 as int,
            spans[si].1 as int,
            0,
            cols[0].len() as int,
        );
        let head = spec_sentence_matches(prog, cols, spans[si].0 as int, spans[si].1 as int, 0);
        let tail = spec_all_matches(prog, cols, spans, si + 1);
        let whole = spec_all_matches(prog, cols, spans, si);
        assert(whole == head + tail);
        assert forall|i: int| 0 <= i < whole.len() implies spec_match_wf(
            #[trigger] whole[i],
            cols[0].len() as int,
        ) by {
            if i < head.len() {
                assert(whole[i] == head[i]);
            } else {
                assert(whole[i] == tail[i - head.len()]);
            }
        }
    }
}

/// Law: the limit is exact.  With limit `k`, the machine reports exactly
/// `min(k, total)` matches, where `total` is the number of matches the
/// unlimited run reports.
pub proof fn lemma_limit_count(
    prog: Seq<InstCode>,
    cols: Seq<Seq<FeatId>>,
    spans: Seq<(u32, u32)>,
    k: usize,
)
    ensures
        spec_limited_matches(prog, cols, spans, Some(k)).len() == vstd::math::min(
            k as int,
            spec_all_matches(prog, cols, spans, 0).len() as int,
        ),
{
}

/// Law: union preference.  `Split` takes whatever its first target reports,
/// whenever that target reports a match; the second target is consulted
/// only when the first finds none.  For a compiled `A|B` the first target
/// is `A`'s code, so a match of `A` is the one reported.
pub proof fn lemma_split_prefers_first(
    prog: Seq<InstCode>,
    cols: Seq<Seq<FeatId>>,
    pc: int,
    sp: int,
    fuel: nat,
    e: usize,
)
    requires
        fuel > 0,
        0 <= sp < cols[0].len(),
        0 <= pc < prog.len(),
        prog[pc] matches InstCode::Split(x, y) && spec_int_exec(
            prog,
            cols,
            x as int,
            sp,
            (fuel - 1) as nat,
        ) == RunOutcome::Matched(e),
    ensures
        spec_int_exec(prog, cols, pc, sp, fuel) == RunOutcome::Matched(e),
{
}

} // verus!
