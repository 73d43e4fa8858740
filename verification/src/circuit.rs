//! Boolean circuits in the Bristol-Fashion layout: a topologically ordered
//! gate list over XOR, AND and INV, wire groups for inputs and outputs, a
//! reference evaluator, and packing of gates into fixed-size blocks for
//! batched processing.

use vstd::prelude::*;

verus! {

/// Identifier of one wire in a circuit.
pub type WireID = u32;

/// The wires of one gate: `N` input wires and one output wire.
#[derive(Copy, Clone)]
pub struct GateInfo<const N: usize> {
    pub inp: [WireID; N],
    pub out: WireID,
}

/// One gate: XOR and AND take two inputs, INV takes one.
#[derive(Copy, Clone)]
pub enum Gate {
    Xor(GateInfo<2>),
    And(GateInfo<2>),
    Inv(GateInfo<1>),
}

impl Gate {
    /// The output wire.
    pub open spec fn spec_out(self) -> WireID {
        match self {
            Gate::Xor(g) => g.out,
            Gate::And(g) => g.out,
            Gate::Inv(g) => g.out,
        }
    }

    /// All of its wires lie below `nw`.
    pub open spec fn wf(self, nw: int) -> bool {
        match self {
            Gate::Xor(g) => g.inp@[0] < nw && g.inp@[1] < nw && g.out < nw,
            Gate::And(g) => g.inp@[0] < nw && g.inp@[1] < nw && g.out < nw,
            Gate::Inv(g) => g.inp@[0] < nw && g.out < nw,
        }
    }

    /// The value written to the output wire, read off the wire state.
    pub open spec fn spec_val(self, w: Seq<bool>) -> bool {
        match self {
            Gate::Xor(g) => w[g.inp@[0] as int] != w[g.inp@[1] as int],
            Gate::And(g) => w[g.inp@[0] as int] && w[g.inp@[1] as int],
            Gate::Inv(g) => !w[g.inp@[0] as int],
        }
    }
}

/// One evaluation step: the computed value lands on the output wire.
pub open spec fn spec_apply_gate(w: Seq<bool>, g: Gate) -> Seq<bool> {
    w.update(g.spec_out() as int, g.spec_val(w))
}

/// The wire state after evaluating the first `k` gates in order.
pub open spec fn spec_eval_gates(w: Seq<bool>, gates: Seq<Gate>, k: int) -> Seq<bool>
    decreases k,
{
    if k <= 0 {
        w
    } else {
        spec_apply_gate(spec_eval_gates(w, gates, k - 1), gates[k - 1])
    }
}

/// Write the first `k` values of one input group to its wires.
pub open spec fn spec_write_group(w: Seq<bool>, wires: Seq<WireID>, vals: Seq<bool>, k: int) -> Seq<
    bool,
>
    decreases k,
{
    if k <= 0 {
        w
    } else {
        spec_write_group(w, wires, vals, k - 1).update(wires[k - 1] as int, vals[k - 1])
    }
}

/// Write the first `g` input groups to their wires.
pub open spec fn spec_write_groups(
    w: Seq<bool>,
    groups: Seq<Seq<WireID>>,
    vals: Seq<Seq<bool>>,
    g: int,
) -> Seq<bool>
    decreases g,
{
    if g <= 0 {
        w
    } else {
        let prev = spec_write_groups(w, groups, vals, g - 1);
        spec_write_group(prev, groups[g - 1], vals[g - 1], groups[g - 1].len() as int)
    }
}

/// The all-false initial wire state of length `nw`.
pub open spec fn spec_zero_wires(nw: int) -> Seq<bool> {
    Seq::new(nw as nat, |i: int| false)
}

/// A boolean circuit: gates in topological order plus the wire groups of its
/// inputs and outputs.
#[derive(Clone)]
pub struct Circuit {
    gates: Vec<Gate>,
    inputs: Vec<Vec<WireID>>,
    outputs: Vec<Vec<WireID>>,
    num_wires: u32,
}

impl Circuit {
    /// The list of gates.
    pub closed spec fn spec_gates(self) -> Seq<Gate> {
        self.gates@
    }

    /// The input wire groups.
    pub closed spec fn spec_inputs(self) -> Seq<Seq<WireID>> {
        Seq::new(self.inputs@.len(), |i: int| self.inputs@[i]@)
    }

    /// The output wire groups.
    pub closed spec fn spec_outputs(self) -> Seq<Seq<WireID>> {
        Seq::new(self.outputs@.len(), |i: int| self.outputs@[i]@)
    }

    /// The total number of wires.
    pub closed spec fn spec_num_wires(self) -> int {
        self.num_wires as int
    }

    /// Every wire named by a gate or a group lies below `num_wires`.
    pub open spec fn wf(self) -> bool {
        let nw = self.spec_num_wires();
        &&& (forall|i: int|
            0 <= i < self.spec_gates().len() ==> (#[trigger] self.spec_gates()[i]).wf(nw))
        &&& (forall|g: int, k: int|
            0 <= g < self.spec_inputs().len() && 0 <= k < self.spec_inputs()[g].len() ==> (
            #[trigger] self.spec_inputs()[g][k]) < nw)
        &&& (forall|g: int, k: int|
            0 <= g < self.spec_outputs().len() && 0 <= k < self.spec_outputs()[g].len() ==> (
            #[trigger] self.spec_outputs()[g][k]) < nw)
    }

    /// The gates, in evaluation order.
    pub fn gates(&self) -> (r: &Vec<Gate>)
        ensures
            r@ == self.spec_gates(),
    {
        &self.gates
    }

    /// The input wire groups.
    pub fn inputs(&self) -> (r: &Vec<Vec<WireID>>)
        ensures
            r@.len() == self.spec_inputs().len(),
            forall|i: int| 0 <= i < r@.len() ==> (#[trigger] r@[i])@ == self.spec_inputs()[i],
    {
        &self.inputs
    }

    /// The output wire groups.
    pub fn outputs(&self) -> (r: &Vec<Vec<WireID>>)
        ensures
            r@.len() == self.spec_outputs().len(),
            forall|i: int| 0 <= i < r@.len() ==> (#[trigger] r@[i])@ == self.spec_outputs()[i],
    {
        &self.outputs
    }

    /// The total number of wires.
    pub fn num_wires(&self) -> (r: u32)
        ensures
            r == self.spec_num_wires(),
    {
        self.num_wires
    }

    /// The final wire state of an evaluation on the given input groups.
    pub open spec fn spec_final_wires(self, vals: Seq<Seq<bool>>) -> Seq<bool> {
        let w0 = spec_write_groups(
            spec_zero_wires(self.spec_num_wires()),
            self.spec_inputs(),
            vals,
            self.spec_inputs().len() as int,
        );
        spec_eval_gates(w0, self.spec_gates(), self.spec_gates().len() as int)
    }

    /// Evaluate the circuit: write the input groups to their wires, run the
    /// gates in order, and read the output groups back.
    pub fn eval(&self, input_vals: &Vec<Vec<bool>>) -> (r: Vec<Vec<bool>>)
        requires
            self.wf(),
            input_vals@.len() == self.spec_inputs().len(),
            forall|g: int|
                0 <= g < input_vals@.len() ==> (#[trigger] input_vals@[g])@.len()
                    == self.spec_inputs()[g].len(),
        ensures
            r@.len() == self.spec_outputs().len(),
            forall|g: int|
                0 <= g < r@.len() ==> (#[trigger] r@[g])@.len() == self.spec_outputs()[g].len(),
            forall|g: int, k: int|
                0 <= g < r@.len() && 0 <= k < r@[g]@.len() ==> (#[trigger] r@[g]@[k])
                    == self.spec_final_wires(vals_view(*input_vals))[self.spec_outputs()[g][k] as int],
    {
        let ghost vals = vals_view(*input_vals);
        let nw = self.num_wires as usize;
        let mut wires: Vec<bool> = Vec::new();
        let mut z: usize = 0;
        while z < nw
            invariant
                z <= nw,
                wires@.len() == z,
                forall|k: int| 0 <= k < z ==> !(#[trigger] wires@[k]),
            decreases nw - z,
        {
            wires.push(false);
            z += 1;
        }
        proof {
            assert(wires@ =~= spec_zero_wires(self.spec_num_wires()));
        }

        // Write the input groups.
        let mut g: usize = 0;
        while g < self.inputs.len()
            invariant
                self.wf(),
                vals == vals_view(*input_vals),
                input_vals@.len() == self.spec_inputs().len(),
                forall|a: int|
                    0 <= a < input_vals@.len() ==> (#[trigger] input_vals@[a])@.len()
                        == self.spec_inputs()[a].len(),
                nw == self.spec_num_wires(),
                g <= self.spec_inputs().len(),
                wires@.len() == nw,
                wires@ == spec_write_groups(
                    spec_zero_wires(self.spec_num_wires()),
                    self.spec_inputs(),
                    vals,
                    g as int,
                ),
            decreases self.inputs@.len() - g,
        {
            let group = &self.inputs[g];
            let ivals = &input_vals[g];
            let ghost w_start = wires@;
            let mut k: usize = 0;
            while k < group.len()
                invariant
                    self.wf(),
                    vals == vals_view(*input_vals),
                    g < self.spec_inputs().len(),
                    group@ == self.spec_inputs()[g as int],
                    ivals@ == vals[g as int],
                    ivals@.len() == group@.len(),
                    nw == self.spec_num_wires(),
                    k <= group@.len(),
                    wires@.len() == nw,
                    wires@ == spec_write_group(w_start, group@, ivals@, k as int),
                decreases group@.len() - k,
            {
                let wire = group[k];
                wires[wire as usize] = ivals[k];
                k += 1;
            }
            g += 1;
        }

        // Run the gates.
        let ghost w0 = wires@;
        let mut i: usize = 0;
        while i < self.gates.len()
            invariant
                self.wf(),
                nw == self.spec_num_wires(),
                i <= self.spec_gates().len(),
                wires@.len() == nw,
                wires@ == spec_eval_gates(w0, self.spec_gates(), i as int),
            decreases self.gates@.len() - i,
        {
            let ghost prev = wires@;
            let gate = self.gates[i];
            match gate {
                Gate::Xor(gi) => {
                    let a = wires[gi.inp[0] as usize];
                    let b = wires[gi.inp[1] as usize];
                    wires[gi.out as usize] = a != b;
                },
                Gate::And(gi) => {
                    let a = wires[gi.inp[0] as usize];
                    let b = wires[gi.inp[1] as usize];
                    wires[gi.out as usize] = a && b;
                },
                Gate::Inv(gi) => {
                    let a = wires[gi.inp[0] as usize];
                    wires[gi.out as usize] = !a;
                },
            }
            proof {
                assert(wires@ =~= spec_apply_gate(prev, gate));
            }
            i += 1;
        }
        let ghost final_w = wires@;
        proof {
            assert(final_w == self.spec_final_wires(vals));
        }

        // Read the output groups.
        let mut r: Vec<Vec<bool>> = Vec::new();
        let mut g: usize = 0;
        while g < self.outputs.len()
            invariant
                self.wf(),
                nw == self.spec_num_wires(),
                wires@ == final_w,
                wires@.len() == nw,
                g <= self.spec_outputs().len(),
                r@.len() == g,
                forall|a: int|
                    0 <= a < g ==> (#[trigger] r@[a])@.len() == self.spec_outputs()[a].len(),
                forall|a: int, k: int|
                    0 <= a < g && 0 <= k < r@[a]@.len() ==> (#[trigger] r@[a]@[k])
                        == final_w[self.spec_outputs()[a][k] as int],
            decreases self.outputs@.len() - g,
        {
            let group = &self.outputs[g];
            let mut line: Vec<bool> = Vec::new();
            let mut k: usize = 0;
            while k < group.len()
                invariant
                    self.wf(),
                    nw == self.spec_num_wires(),
                    wires@ == final_w,
                    wires@.len() == nw,
                    g < self.spec_outputs().len(),
                    group@ == self.spec_outputs()[g as int],
                    k <= group@.len(),
                    line@.len() == k,
                    forall|b: int|
                        0 <= b < k ==> (#[trigger] line@[b]) == final_w[group@[b] as int],
                decreases group@.len() - k,
            {
                line.push(wires[group[k] as usize]);
                k += 1;
            }
            r.push(line);
            g += 1;
        }
        r
    }
}

/// The nested view of a vector of boolean groups.
pub open spec fn vals_view(v: Vec<Vec<bool>>) -> Seq<Seq<bool>> {
    Seq::new(v@.len(), |i: int| v@[i]@)
}

/// Failures of the Bristol-Fashion circuit format.
#[derive(Debug, Clone, Copy, PartialEq, Eq, Structural)]
pub enum CircuitError {
    /// The header or a gate line is missing or cut short.
    Truncated,
    /// A token that should be a decimal number is not one.
    BadNumber,
    /// A gate has an unknown type or the wrong number of wires.
    BadGate,
    /// A wire identifier or a group does not fit below `num_wires`.
    WireRange,
}

/// The sum of the lengths of the first `g` wire groups.
pub open spec fn spec_sum_upto(groups: Seq<Seq<WireID>>, g: int) -> int
    decreases g,
{
    if g <= 0 {
        0
    } else {
        spec_sum_upto(groups, g - 1) + groups[g - 1].len()
    }
}

/// The header tokens of the first `k` lines, in order.
pub open spec fn spec_toks_prefix(ls: Seq<Seq<u8>>, k: int) -> Seq<Seq<u8>>
    decreases k,
{
    if k <= 0 {
        Seq::empty()
    } else {
        spec_toks_prefix(ls, k - 1) + spec_tokens(ls[k - 1])
    }
}

/// The header token stream: the tokens of the first four lines.
pub open spec fn spec_header_toks(ls: Seq<Seq<u8>>) -> Seq<Seq<u8>> {
    spec_toks_prefix(ls, 4)
}

/// A parsed gate carries exactly what its line's tokens describe: the
/// declared fan-in, the input and output wires at their fixed positions,
/// and the type name as the final token.
pub open spec fn spec_gate_matches(g: Gate, ts: Seq<Seq<u8>>) -> bool {
    match g {
        Gate::And(gi) => {
            &&& ts.len() >= 6
            &&& ts.last() == seq![65u8, 78u8, 68u8]
            &&& spec_parse_u32(ts[0]) == Some(2u32)
            &&& spec_parse_u32(ts[2]) == Some(gi.inp@[0])
            &&& spec_parse_u32(ts[3]) == Some(gi.inp@[1])
            &&& spec_parse_u32(ts[4]) == Some(gi.out)
        },
        Gate::Xor(gi) => {
            &&& ts.len() >= 6
            &&& ts.last() == seq![88u8, 79u8, 82u8]
            &&& spec_parse_u32(ts[0]) == Some(2u32)
            &&& spec_parse_u32(ts[2]) == Some(gi.inp@[0])
            &&& spec_parse_u32(ts[3]) == Some(gi.inp@[1])
            &&& spec_parse_u32(ts[4]) == Some(gi.out)
        },
        Gate::Inv(gi) => {
            &&& ts.len() >= 5
            &&& ts.last() == seq![73u8, 78u8, 86u8]
            &&& spec_parse_u32(ts[0]) == Some(1u32)
            &&& spec_parse_u32(ts[2]) == Some(gi.inp@[0])
            &&& spec_parse_u32(ts[3]) == Some(gi.out)
        },
    }
}

/// The circuit is the one the text describes: the counts and group lengths
/// come from the header numbers in order, and gate `k` is parsed from gate
/// line `k`.
pub open spec fn spec_circuit_matches(content: Seq<u8>, c: Circuit) -> bool {
    let ls = spec_split_lines(content);
    let hts = spec_header_toks(ls);
    let ni = c.spec_inputs().len() as int;
    let no = c.spec_outputs().len() as int;
    &&& ls.len() >= 4 + c.spec_gates().len()
    &&& hts.len() >= 4 + ni + no
    &&& spec_parse_u32(hts[0]) == Some(c.spec_gates().len() as u32)
    &&& spec_parse_u32(hts[1]) == Some(c.spec_num_wires() as u32)
    &&& spec_parse_u32(hts[2]) == Some(ni as u32)
    &&& (forall|a: int|
        0 <= a < ni ==> spec_parse_u32(hts[3 + a]) == Some(
            (#[trigger] c.spec_inputs()[a]).len() as u32,
        ))
    &&& spec_parse_u32(hts[3 + ni]) == Some(no as u32)
    &&& (forall|a: int|
        0 <= a < no ==> spec_parse_u32(hts[4 + ni + a]) == Some(
            (#[trigger] c.spec_outputs()[a]).len() as u32,
        ))
    &&& (forall|k: int|
        0 <= k < c.spec_gates().len() ==> spec_gate_matches(
            #[trigger] c.spec_gates()[k],
            spec_tokens(ls[4 + k]),
        ))
}

/// The number at header position `i`, if there is one.
pub open spec fn spec_num_at(hts: Seq<Seq<u8>>, i: int) -> Option<u32> {
    if 0 <= i < hts.len() {
        spec_parse_u32(hts[i])
    } else {
        None
    }
}

/// The `cnt` group lengths starting at header position `base` all parse and
/// keep the running total of wires within `nw`.
pub open spec fn spec_lens_ok(hts: Seq<Seq<u8>>, base: int, cnt: int, nw: u32, used: int) -> bool
    decreases cnt,
{
    if cnt <= 0 {
        true
    } else {
        &&& spec_num_at(hts, base) is Some
        &&& used + spec_num_at(hts, base).unwrap() <= nw
        &&& spec_lens_ok(hts, base + 1, cnt - 1, nw, used + spec_num_at(hts, base).unwrap())
    }
}

/// One gate line is well-formed for a circuit of `nw` wires: a known type
/// name last, the matching declared fan-in first, and in-range wires at the
/// fixed positions.
pub open spec fn spec_gate_line_ok(ts: Seq<Seq<u8>>, nw: u32) -> bool {
    &&& ts.len() >= 1
    &&& {
        ||| ((ts.last() == seq![65u8, 78u8, 68u8] || ts.last() == seq![88u8, 79u8, 82u8]) && {
            &&& ts.len() >= 6
            &&& spec_parse_u32(ts[0]) == Some(2u32)
            &&& (forall|x: int|
                0 <= x < 3 ==> (#[trigger] spec_parse_u32(ts[2 + x])) is Some && spec_parse_u32(
                    ts[2 + x],
                ).unwrap() < nw)
        })
        ||| (ts.last() == seq![73u8, 78u8, 86u8] && {
            &&& ts.len() >= 5
            &&& spec_parse_u32(ts[0]) == Some(1u32)
            &&& (forall|x: int|
                0 <= x < 2 ==> (#[trigger] spec_parse_u32(ts[2 + x])) is Some && spec_parse_u32(
                    ts[2 + x],
                ).unwrap() < nw)
        })
    }
}

/// The text is a well-formed circuit: enough lines, a fully numeric header
/// whose group lengths fit the wire count, and a well-formed line for every
/// declared gate.
pub open spec fn spec_circuit_accepts(content: Seq<u8>) -> bool {
    let ls = spec_split_lines(content);
    let hts = spec_header_toks(ls);
    &&& ls.len() >= 4
    &&& spec_num_at(hts, 0) is Some
    &&& spec_num_at(hts, 1) is Some
    &&& spec_num_at(hts, 2) is Some
    &&& spec_lens_ok(hts, 3, spec_num_at(hts, 2).unwrap() as int, spec_num_at(hts, 1).unwrap(), 0)
    &&& spec_num_at(hts, 3 + spec_num_at(hts, 2).unwrap()) is Some
    &&& spec_lens_ok(
        hts,
        4 + spec_num_at(hts, 2).unwrap(),
        spec_num_at(hts, 3 + spec_num_at(hts, 2).unwrap()).unwrap() as int,
        spec_num_at(hts, 1).unwrap(),
        0,
    )
    &&& ls.len() - 4 >= spec_num_at(hts, 0).unwrap()
    &&& (forall|k: int|
        0 <= k < spec_num_at(hts, 0).unwrap() ==> spec_gate_line_ok(
            #[trigger] spec_tokens(ls[4 + k]),
            spec_num_at(hts, 1).unwrap(),
        ))
}

/// The splitter state: the lines closed so far and the bytes of the line
/// being read.
pub struct SplitState {
    /// The completed lines.
    pub lines: Seq<Seq<u8>>,
    /// The bytes of the current line.
    pub cur: Seq<u8>,
}

/// One byte of line splitting: a newline closes the current line, any other
/// byte extends it.
pub open spec fn split_step(m: SplitState, c: u8) -> SplitState {
    if c == 10 {
        SplitState { lines: m.lines.push(m.cur), cur: Seq::empty() }
    } else {
        SplitState { lines: m.lines, cur: m.cur.push(c) }
    }
}

/// The splitter state after the whole byte sequence.
pub open spec fn split_run(m: SplitState, s: Seq<u8>) -> SplitState
    decreases s.len(),
{
    if s.len() == 0 {
        m
    } else {
        split_run(split_step(m, s.first()), s.drop_first())
    }
}

/// The lines of a byte string: newline-separated, with an unterminated final
/// line kept.
pub open spec fn spec_split_lines(s: Seq<u8>) -> Seq<Seq<u8>> {
    let m = split_run(SplitState { lines: Seq::empty(), cur: Seq::empty() }, s);
    if m.cur.len() > 0 {
        m.lines.push(m.cur)
    } else {
        m.lines
    }
}

proof fn lemma_split_run_push(m: SplitState, s: Seq<u8>, c: u8)
    ensures
        split_run(m, s.push(c)) == split_step(split_run(m, s), c),
    decreases s.len(),
{
    reveal_with_fuel(split_run, 3);
    if s.len() == 0 {
        assert(s.push(c).first() == c);
        assert(s.push(c).drop_first() =~= Seq::<u8>::empty());
    } else {
        assert(s.push(c).first() == s.first());
        assert(s.push(c).drop_first() =~= s.drop_first().push(c));
        lemma_split_run_push(split_step(m, s.first()), s.drop_first(), c);
    }
}

/// The nested view of a vector of byte strings.
pub open spec fn bytes_view(v: Vec<Vec<u8>>) -> Seq<Seq<u8>> {
    Seq::new(v@.len(), |i: int| v@[i]@)
}

/// Split a byte string into its lines, separated by newline bytes.
fn split_lines(content: &[u8]) -> (r: Vec<Vec<u8>>)
    ensures
        bytes_view(r) == spec_split_lines(content@),
{
    let ghost m0 = SplitState { lines: Seq::<Seq<u8>>::empty(), cur: Seq::<u8>::empty() };
    let mut lines: Vec<Vec<u8>> = Vec::new();
    let mut cur: Vec<u8> = Vec::new();
    let mut p: usize = 0;
    let n = content.len();
    proof {
        assert(content@.subrange(0, 0) =~= Seq::<u8>::empty());
        assert(bytes_view(lines) =~= Seq::<Seq<u8>>::empty());
    }
    while p < n
        invariant
            p <= n,
            n == content@.len(),
            m0 == (SplitState { lines: Seq::<Seq<u8>>::empty(), cur: Seq::<u8>::empty() }),
            split_run(m0, content@.subrange(0, p as int)) == (SplitState {
                lines: bytes_view(lines),
                cur: cur@,
            }),
        decreases n - p,
    {
        let c = content[p];
        let ghost pre = content@.subrange(0, p as int);
        let ghost old_lines = bytes_view(lines);
        let ghost old_cur = cur@;
        proof {
            assert(content@.subrange(0, p + 1) =~= pre.push(content@[p as int]));
            lemma_split_run_push(m0, pre, content@[p as int]);
        }
        if c == 10u8 {
            lines.push(cur);
            cur = Vec::new();
            proof {
                assert(bytes_view(lines) =~= old_lines.push(old_cur));
            }
        } else {
            cur.push(c);
        }
        p += 1;
    }
    proof {
        assert(content@.subrange(0, n as int) =~= content@);
    }
    if cur.len() > 0 {
        let ghost old_lines = bytes_view(lines);
        let ghost old_cur = cur@;
        lines.push(cur);
        proof {
            assert(bytes_view(lines) =~= old_lines.push(old_cur));
        }
    }
    lines
}

/// The tokenizer state: the tokens closed so far and the bytes of the token
/// being read.
pub struct TokState {
    /// The completed tokens.
    pub toks: Seq<Seq<u8>>,
    /// The bytes of the current token.
    pub cur: Seq<u8>,
}

/// One byte of tokenizing: whitespace closes the pending token if any, other
/// bytes extend it.
pub open spec fn tok_step(m: TokState, c: u8) -> TokState {
    if c == 32 || c == 9 || c == 13 {
        if m.cur.len() > 0 {
            TokState { toks: m.toks.push(m.cur), cur: Seq::empty() }
        } else {
            m
        }
    } else {
        TokState { toks: m.toks, cur: m.cur.push(c) }
    }
}

/// The tokenizer state after the whole byte sequence.
pub open spec fn tok_run(m: TokState, s: Seq<u8>) -> TokState
    decreases s.len(),
{
    if s.len() == 0 {
        m
    } else {
        tok_run(tok_step(m, s.first()), s.drop_first())
    }
}

/// The whitespace-separated tokens of a line, empty tokens dropped.
pub open spec fn spec_tokens(s: Seq<u8>) -> Seq<Seq<u8>> {
    let m = tok_run(TokState { toks: Seq::empty(), cur: Seq::empty() }, s);
    if m.cur.len() > 0 {
        m.toks.push(m.cur)
    } else {
        m.toks
    }
}

proof fn lemma_tok_run_push(m: TokState, s: Seq<u8>, c: u8)
    ensures
        tok_run(m, s.push(c)) == tok_step(tok_run(m, s), c),
    decreases s.len(),
{
    reveal_with_fuel(tok_run, 3);
    if s.len() == 0 {
        assert(s.push(c).first() == c);
        assert(s.push(c).drop_first() =~= Seq::<u8>::empty());
    } else {
        assert(s.push(c).first() == s.first());
        assert(s.push(c).drop_first() =~= s.drop_first().push(c));
        lemma_tok_run_push(tok_step(m, s.first()), s.drop_first(), c);
    }
}

/// Split a line into whitespace-separated tokens, dropping empty ones.
fn tokens_of(line: &Vec<u8>) -> (r: Vec<Vec<u8>>)
    ensures
        bytes_view(r) == spec_tokens(line@),
{
    let ghost m0 = TokState { toks: Seq::<Seq<u8>>::empty(), cur: Seq::<u8>::empty() };
    let mut toks: Vec<Vec<u8>> = Vec::new();
    let mut cur: Vec<u8> = Vec::new();
    let mut p: usize = 0;
    let n = line.len();
    proof {
        assert(line@.subrange(0, 0) =~= Seq::<u8>::empty());
        assert(bytes_view(toks) =~= Seq::<Seq<u8>>::empty());
    }
    while p < n
        invariant
            p <= n,
            n == line@.len(),
            m0 == (TokState { toks: Seq::<Seq<u8>>::empty(), cur: Seq::<u8>::empty() }),
            tok_run(m0, line@.subrange(0, p as int)) == (TokState {
                toks: bytes_view(toks),
                cur: cur@,
            }),
        decreases n - p,
    {
        let c = line[p];
        let ghost pre = line@.subrange(0, p as int);
        let ghost old_toks = bytes_view(toks);
        let ghost old_cur = cur@;
        proof {
            assert(line@.subrange(0, p + 1) =~= pre.push(line@[p as int]));
            lemma_tok_run_push(m0, pre, line@[p as int]);
        }
        if c == 32u8 || c == 9u8 || c == 13u8 {
            if cur.len() > 0 {
                toks.push(cur);
                cur = Vec::new();
                proof {
                    assert(bytes_view(toks) =~= old_toks.push(old_cur));
                }
            }
        } else {
            cur.push(c);
        }
        p += 1;
    }
    proof {
        assert(line@.subrange(0, n as int) =~= line@);
    }
    if cur.len() > 0 {
        let ghost old_toks = bytes_view(toks);
        let ghost old_cur = cur@;
        toks.push(cur);
        proof {
            assert(bytes_view(toks) =~= old_toks.push(old_cur));
        }
    }
    toks
}

/// One digit of decimal accumulation; a non-digit or an overflowing value is
/// fatal.
pub open spec fn pu32_step(acc: Option<u32>, c: u8) -> Option<u32> {
    match acc {
        None => None,
        Some(v) => if 48 <= c <= 57 && v <= (0xFFFFFFFFu32 - ((c - 48) as u32)) / 10 {
            Some((v * 10 + ((c - 48) as u32)) as u32)
        } else {
            None
        },
    }
}

/// The accumulated value after the whole byte sequence.
pub open spec fn pu32_run(acc: Option<u32>, s: Seq<u8>) -> Option<u32>
    decreases s.len(),
{
    if s.len() == 0 {
        acc
    } else {
        pu32_run(pu32_step(acc, s.first()), s.drop_first())
    }
}

/// The number a decimal token stands for: digits only, no empty token, no
/// value beyond 32 bits.
pub open spec fn spec_parse_u32(s: Seq<u8>) -> Option<u32> {
    if s.len() == 0 {
        None
    } else {
        pu32_run(Some(0u32), s)
    }
}

proof fn lemma_pu32_run_push(acc: Option<u32>, s: Seq<u8>, c: u8)
    ensures
        pu32_run(acc, s.push(c)) == pu32_step(pu32_run(acc, s), c),
    decreases s.len(),
{
    reveal_with_fuel(pu32_run, 3);
    if s.len() == 0 {
        assert(s.push(c).first() == c);
        assert(s.push(c).drop_first() =~= Seq::<u8>::empty());
    } else {
        assert(s.push(c).first() == s.first());
        assert(s.push(c).drop_first() =~= s.drop_first().push(c));
        lemma_pu32_run_push(pu32_step(acc, s.first()), s.drop_first(), c);
    }
}

proof fn lemma_pu32_none_absorbs(s: Seq<u8>)
    ensures
        pu32_run(None, s) == None::<u32>,
    decreases s.len(),
{
    if s.len() > 0 {
        lemma_pu32_none_absorbs(s.drop_first());
    }
}

/// Parse a decimal token into a 32-bit number; anything else is rejected.
fn parse_u32_tok(tok: &Vec<u8>) -> (r: Option<u32>)
    ensures
        r == spec_parse_u32(tok@),
{
    if tok.len() == 0 {
        return None;
    }
    let mut val: u32 = 0;
    let mut p: usize = 0;
    let n = tok.len();
    proof {
        assert(tok@.subrange(0, 0) =~= Seq::<u8>::empty());
    }
    while p < n
        invariant
            p <= n,
            n == tok@.len(),
            n >= 1,
            pu32_run(Some(0u32), tok@.subrange(0, p as int)) == Some(val),
        decreases n - p,
    {
        let c = tok[p];
        let ghost pre = tok@.subrange(0, p as int);
        proof {
            assert(tok@.subrange(0, p + 1) =~= pre.push(tok@[p as int]));
            lemma_pu32_run_push(Some(0u32), pre, tok@[p as int]);
        }
        if c < 48u8 || c > 57u8 {
            proof {
                assert(tok@ =~= tok@.subrange(0, p + 1) + tok@.subrange(p + 1, n as int));
                lemma_pu32_run_append(Some(0u32), tok@.subrange(0, p + 1), tok@.subrange(p + 1, n as int));
                lemma_pu32_none_absorbs(tok@.subrange(p + 1, n as int));
            }
            return None;
        }
        let d = (c - 48u8) as u32;
        if val > (0xFFFFFFFFu32 - d) / 10 {
            proof {
                assert(tok@ =~= tok@.subrange(0, p + 1) + tok@.subrange(p + 1, n as int));
                lemma_pu32_run_append(Some(0u32), tok@.subrange(0, p + 1), tok@.subrange(p + 1, n as int));
                lemma_pu32_none_absorbs(tok@.subrange(p + 1, n as int));
            }
            return None;
        }
        val = val * 10 + d;
        p += 1;
    }
    proof {
        assert(tok@.subrange(0, n as int) =~= tok@);
    }
    Some(val)
}

proof fn lemma_pu32_run_append(acc: Option<u32>, s1: Seq<u8>, s2: Seq<u8>)
    ensures
        pu32_run(acc, s1 + s2) == pu32_run(pu32_run(acc, s1), s2),
    decreases s1.len(),
{
    reveal_with_fuel(pu32_run, 3);
    if s1.len() == 0 {
        assert(s1 + s2 =~= s2);
    } else {
        assert((s1 + s2).first() == s1.first());
        assert((s1 + s2).drop_first() =~= s1.drop_first() + s2);
        lemma_pu32_run_append(pu32_step(acc, s1.first()), s1.drop_first(), s2);
    }
}

/// Is the token exactly the three-letter gate name with these bytes?
fn tok_is(tok: &Vec<u8>, a: u8, b: u8, c: u8) -> (r: bool)
    ensures
        r <==> tok@ == seq![a, b, c],
{
    let r = tok.len() == 3 && tok[0] == a && tok[1] == b && tok[2] == c;
    proof {
        if r {
            assert(tok@ =~= seq![a, b, c]);
        } else {
            if tok@ == seq![a, b, c] {
                assert(tok@.len() == 3);
                assert(tok@[0] == a && tok@[1] == b && tok@[2] == c);
                assert(false);
            }
        }
    }
    r
}

impl Circuit {
    /// Parse a circuit from the Bristol-Fashion text format.  The first four
    /// lines hold the counts and the input and output group lengths; each
    /// further line holds one gate.  Input groups take the leading wire
    /// identifiers in declaration order; output groups, still in declaration
    /// order, take the trailing identifiers up to `num_wires`.  Every wire
    /// must lie below `num_wires`.  Parsing succeeds exactly on well-formed
    /// text, and a parsed circuit is exactly the one the text describes: its
    /// counts, group lengths and gates all come from the header numbers and
    /// gate lines in order.
    pub fn from_bristol_fashion(content: &[u8]) -> (r: Result<Circuit, CircuitError>)
        ensures
            match r {
                Ok(c) => {
                    &&& c.wf()
                    &&& spec_circuit_matches(content@, c)
                    &&& spec_circuit_accepts(content@)
                    &&& (forall|g: int, k: int|
                        0 <= g < c.spec_inputs().len() && 0 <= k < c.spec_inputs()[g].len() ==> (
                        #[trigger] c.spec_inputs()[g][k]) == spec_sum_upto(c.spec_inputs(), g)
                            + k)
                    &&& (forall|g: int, k: int|
                        0 <= g < c.spec_outputs().len() && 0 <= k < c.spec_outputs()[g].len()
                            ==> (#[trigger] c.spec_outputs()[g][k]) == c.spec_num_wires()
                            - spec_sum_upto(c.spec_outputs(), c.spec_outputs().len() as int)
                            + spec_sum_upto(c.spec_outputs(), g) + k)
                },
                Err(_) => !spec_circuit_accepts(content@),
            },
    {
        let lines = split_lines(content);
        let ghost ls = spec_split_lines(content@);
        if lines.len() < 4 {
            proof {
                assert(ls.len() < 4);
            }
            return Err(CircuitError::Truncated);
        }

        // The header: the tokens of the first four lines, in order.
        let mut toks: Vec<Vec<u8>> = Vec::new();
        let mut li: usize = 0;
        proof {
            assert(bytes_view(toks) =~= spec_toks_prefix(ls, 0));
        }
        while li < 4
            invariant
                lines@.len() >= 4,
                li <= 4,
                ls == bytes_view(lines),
                bytes_view(toks) == spec_toks_prefix(ls, li as int),
            decreases 4 - li,
        {
            let ts = tokens_of(&lines[li]);
            let ghost tsv0 = bytes_view(ts);
            let ghost base = bytes_view(toks);
            proof {
                assert(lines@[li as int]@ == bytes_view(lines)[li as int]);
                assert(tsv0 == spec_tokens(ls[li as int]));
                assert(tsv0.subrange(0, 0) =~= Seq::<Seq<u8>>::empty());
                assert(base + tsv0.subrange(0, 0) =~= base);
            }
            let mut ts = ts;
            let mut k: usize = 0;
            let tn = ts.len();
            proof {
                assert(bytes_view(ts) =~= tsv0.subrange(0, tn as int));
            }
            while k < tn
                invariant
                    k <= tn,
                    ts@.len() + k == tn,
                    tn == tsv0.len(),
                    bytes_view(ts) == tsv0.subrange(k as int, tn as int),
                    bytes_view(toks) == base + tsv0.subrange(0, k as int),
                decreases tn - k,
            {
                let ghost old_ts = bytes_view(ts);
                let ghost old_vec = ts@;
                let ghost old_toks = bytes_view(toks);
                let t = ts.remove(0);
                proof {
                    assert(t@ == old_ts[0]);
                    assert(old_ts[0] == tsv0[k as int]);
                    assert forall|i: int| 0 <= i < ts@.len() implies #[trigger] bytes_view(ts)[i]
                        == tsv0[k + 1 + i] by {
                        assert(ts@[i] == old_vec[i + 1]);
                        assert(old_vec[i + 1]@ == old_ts[i + 1]);
                        assert(old_ts[i + 1] == tsv0[k + 1 + i]);
                    };
                    assert(bytes_view(ts) =~= tsv0.subrange(k + 1, tn as int));
                }
                toks.push(t);
                proof {
                    assert(bytes_view(toks) =~= old_toks.push(t@));
                    assert(bytes_view(toks) =~= base + tsv0.subrange(0, k + 1));
                }
                k += 1;
            }
            proof {
                assert(tsv0.subrange(0, tn as int) =~= tsv0);
                assert(bytes_view(toks) =~= spec_toks_prefix(ls, li + 1));
            }
            li += 1;
        }
        let ghost hts = spec_header_toks(ls);
        proof {
            assert(bytes_view(toks) == hts);
        }

        let mut hidx: usize = 0;
        let num_gates = match Self::next_header_number(&toks, &mut hidx) {
            Some(v) => v,
            None => {
                proof {
                    assert(spec_num_at(hts, 0) is None);
                }
                return Err(CircuitError::BadNumber);
            },
        };
        proof {
            assert(hidx == 1 && spec_num_at(hts, 0) == Some(num_gates));
        }
        let num_wires = match Self::next_header_number(&toks, &mut hidx) {
            Some(v) => v,
            None => {
                proof {
                    assert(spec_num_at(hts, 1) is None);
                }
                return Err(CircuitError::BadNumber);
            },
        };
        proof {
            assert(hidx == 2 && spec_num_at(hts, 1) == Some(num_wires));
        }

        let num_inputs = match Self::next_header_number(&toks, &mut hidx) {
            Some(v) => v,
            None => {
                proof {
                    assert(spec_num_at(hts, 2) is None);
                }
                return Err(CircuitError::BadNumber);
            },
        };
        proof {
            assert(hidx == 3 && spec_num_at(hts, 2) == Some(num_inputs));
        }
        let mut inputs: Vec<Vec<WireID>> = Vec::new();
        let mut start: u32 = 0;
        let mut gi: u32 = 0;
        while gi < num_inputs
            invariant
                start <= num_wires,
                hts == bytes_view(toks),
                hts == spec_header_toks(spec_split_lines(content@)),
                spec_num_at(hts, 1) == Some(num_wires),
                spec_num_at(hts, 2) == Some(num_inputs),
                gi <= num_inputs,
                gi == inputs@.len(),
                hidx == 3 + gi,
                hidx <= hts.len(),
                spec_lens_ok(hts, 3, num_inputs as int, num_wires, 0) ==> spec_lens_ok(
                    hts,
                    3 + gi,
                    num_inputs - gi,
                    num_wires,
                    start as int,
                ),
                spec_lens_ok(hts, 3 + gi, num_inputs - gi, num_wires, start as int)
                    ==> spec_lens_ok(hts, 3, num_inputs as int, num_wires, 0),
                forall|a: int|
                    0 <= a < gi ==> spec_parse_u32(hts[3 + a]) == Some(
                        (#[trigger] inputs@[a])@.len() as u32,
                    ),
                forall|a: int|
                    0 <= a < inputs@.len() ==> (#[trigger] inputs@[a])@.len() <= num_wires,
                forall|a: int, k: int|
                    0 <= a < inputs@.len() && 0 <= k < inputs@[a]@.len() ==> (
                    #[trigger] inputs@[a]@[k]) == spec_sum_upto(groups_view(inputs), a) + k,
                start == spec_sum_upto(groups_view(inputs), inputs@.len() as int),
            decreases num_inputs - gi,
        {
            let l = match Self::next_header_number(&toks, &mut hidx) {
                Some(v) => v,
                None => {
                    proof {
                        assert(spec_num_at(hts, 3 + gi) is None);
                        if spec_lens_ok(hts, 3, num_inputs as int, num_wires, 0) {
                            assert(spec_num_at(hts, 3 + gi) is Some);
                        }
                    }
                    return Err(CircuitError::BadNumber);
                },
            };
            proof {
                assert(spec_num_at(hts, 3 + gi) == Some(l));
                assert(spec_parse_u32(hts[3 + gi]) == Some(l));
            }
            if l > num_wires - start {
                proof {
                    if spec_lens_ok(hts, 3, num_inputs as int, num_wires, 0) {
                        assert(start + l <= num_wires);
                    }
                }
                return Err(CircuitError::WireRange);
            }
            let ghost old_groups = groups_view(inputs);
            let mut group: Vec<WireID> = Vec::new();
            let mut k: u32 = 0;
            while k < l
                invariant
                    k <= l,
                    l <= num_wires - start,
                    start + l <= u32::MAX,
                    group@.len() == k,
                    forall|x: int| 0 <= x < k ==> (#[trigger] group@[x]) == start + x,
                decreases l - k,
            {
                group.push(start + k);
                k += 1;
            }
            inputs.push(group);
            proof {
                let ngroups = groups_view(inputs);
                assert(ngroups.drop_last() =~= old_groups);
                assert forall|a: int| 0 <= a <= old_groups.len() implies spec_sum_upto(ngroups, a)
                    == spec_sum_upto(old_groups, a) by {
                    Self::lemma_sum_upto_prefix(old_groups, ngroups, a);
                };
                assert(ngroups[old_groups.len() as int] == group@);
            }
            start = start + l;
            gi += 1;
        }

        let ghost ni = inputs@.len() as int;
        let num_outputs = match Self::next_header_number(&toks, &mut hidx) {
            Some(v) => v,
            None => {
                proof {
                    assert(spec_num_at(hts, 3 + ni) is None);
                }
                return Err(CircuitError::BadNumber);
            },
        };
        proof {
            assert(hidx == 4 + ni && spec_num_at(hts, 3 + ni) == Some(num_outputs));
            assert(spec_parse_u32(hts[3 + ni]) == Some(num_outputs));
        }
        let mut out_lens: Vec<u32> = Vec::new();
        let mut total_out: u32 = 0;
        let mut gi: u32 = 0;
        while gi < num_outputs
            invariant
                total_out <= num_wires,
                hts == bytes_view(toks),
                hts == spec_header_toks(spec_split_lines(content@)),
                spec_num_at(hts, 1) == Some(num_wires),
                spec_num_at(hts, 2) == Some(num_inputs),
                ni == num_inputs,
                spec_num_at(hts, 3 + ni) == Some(num_outputs),
                gi <= num_outputs,
                out_lens@.len() == gi,
                hidx == 4 + ni + gi,
                hidx <= hts.len(),
                spec_lens_ok(hts, 4 + ni, num_outputs as int, num_wires, 0) ==> spec_lens_ok(
                    hts,
                    4 + ni + gi,
                    num_outputs - gi,
                    num_wires,
                    total_out as int,
                ),
                spec_lens_ok(hts, 4 + ni + gi, num_outputs - gi, num_wires, total_out as int)
                    ==> spec_lens_ok(hts, 4 + ni, num_outputs as int, num_wires, 0),
                forall|a: int|
                    0 <= a < gi ==> spec_parse_u32(hts[4 + ni + a]) == Some(
                        #[trigger] out_lens@[a],
                    ),
                total_out == spec_sum_lens_u32(out_lens@),
            decreases num_outputs - gi,
        {
            let l = match Self::next_header_number(&toks, &mut hidx) {
                Some(v) => v,
                None => {
                    proof {
                        assert(spec_num_at(hts, 4 + ni + gi) is None);
                        if spec_lens_ok(hts, 4 + ni, num_outputs as int, num_wires, 0) {
                            assert(spec_num_at(hts, 4 + ni + gi) is Some);
                        }
                    }
                    return Err(CircuitError::BadNumber);
                },
            };
            proof {
                assert(spec_num_at(hts, 4 + ni + gi) == Some(l));
                assert(spec_parse_u32(hts[4 + ni + gi]) == Some(l));
            }
            if l > num_wires - total_out {
                proof {
                    if spec_lens_ok(hts, 4 + ni, num_outputs as int, num_wires, 0) {
                        assert(total_out + l <= num_wires);
                    }
                }
                return Err(CircuitError::WireRange);
            }
            let ghost old_lens = out_lens@;
            out_lens.push(l);
            proof {
                lemma_sum_lens_push(old_lens, l);
            }
            total_out = total_out + l;
            gi += 1;
        }

        proof {
            assert(out_lens@.subrange(0, out_lens@.len() as int) =~= out_lens@);
        }
        let mut outputs: Vec<Vec<WireID>> = Vec::new();
        let mut ostart: u32 = num_wires - total_out;
        let mut gi: usize = 0;
        while gi < out_lens.len()
            invariant
                out_lens@.len() >= gi,
                total_out <= num_wires,
                total_out == spec_sum_lens_u32(out_lens@),
                outputs@.len() == gi,
                forall|a: int|
                    0 <= a < gi ==> (#[trigger] outputs@[a])@.len() == out_lens@[a],
                ostart == num_wires - total_out + spec_sum_upto(groups_view(outputs), gi as int),
                ostart <= num_wires,
                forall|a: int, k: int|
                    0 <= a < outputs@.len() && 0 <= k < outputs@[a]@.len() ==> (
                    #[trigger] outputs@[a]@[k]) == num_wires - total_out + spec_sum_upto(
                        groups_view(outputs),
                        a,
                    ) + k,
                spec_sum_upto(groups_view(outputs), gi as int) + spec_sum_lens_u32(
                    out_lens@.subrange(gi as int, out_lens@.len() as int),
                ) == total_out,
            decreases out_lens@.len() - gi,
        {
            let l = out_lens[gi];
            proof {
                Self::lemma_sum_suffix_first(out_lens@, gi as int);
                lemma_sum_lens_nonneg(out_lens@.subrange(gi + 1, out_lens@.len() as int));
            }
            let ghost old_groups = groups_view(outputs);
            let mut group: Vec<WireID> = Vec::new();
            let mut k: u32 = 0;
            while k < l
                invariant
                    k <= l,
                    ostart + l <= num_wires,
                    group@.len() == k,
                    forall|x: int| 0 <= x < k ==> (#[trigger] group@[x]) == ostart + x,
                decreases l - k,
            {
                group.push(ostart + k);
                k += 1;
            }
            outputs.push(group);
            proof {
                let ngroups = groups_view(outputs);
                assert(ngroups.drop_last() =~= old_groups);
                assert forall|a: int| 0 <= a <= old_groups.len() implies spec_sum_upto(ngroups, a)
                    == spec_sum_upto(old_groups, a) by {
                    Self::lemma_sum_upto_prefix(old_groups, ngroups, a);
                };
                assert(ngroups[old_groups.len() as int] == group@);
                assert(out_lens@.subrange(gi as int, out_lens@.len() as int).drop_first()
                    =~= out_lens@.subrange(gi + 1, out_lens@.len() as int));
            }
            ostart = ostart + l;
            gi += 1;
        }

        // The lines that hold gates.
        let ng = num_gates as usize;
        if lines.len() - 4 < ng {
            proof {
                assert(ls.len() - 4 < num_gates);
            }
            return Err(CircuitError::Truncated);
        }
        let mut gates: Vec<Gate> = Vec::new();
        let mut li: usize = 0;
        while li < ng
            invariant
                ng + 4 <= lines@.len(),
                lines@.len() <= usize::MAX,
                li <= ng,
                ng == num_gates,
                hts == spec_header_toks(ls),
                ls == spec_split_lines(content@),
                spec_num_at(hts, 0) == Some(num_gates),
                spec_num_at(hts, 1) == Some(num_wires),
                ls == bytes_view(lines),
                gates@.len() == li,
                forall|a: int|
                    0 <= a < gates@.len() ==> (#[trigger] gates@[a]).wf(num_wires as int),
                forall|a: int|
                    0 <= a < li ==> spec_gate_matches(
                        #[trigger] gates@[a],
                        spec_tokens(ls[4 + a]),
                    ),
                forall|a: int|
                    0 <= a < li ==> spec_gate_line_ok(
                        #[trigger] spec_tokens(ls[4 + a]),
                        num_wires,
                    ),
            decreases ng - li,
        {
            let ts = tokens_of(&lines[4 + li]);
            proof {
                assert(lines@[4 + li as int]@ == bytes_view(lines)[4 + li as int]);
                assert(bytes_view(ts) == spec_tokens(ls[4 + li as int]));
            }
            match Self::parse_gate_line(&ts, num_wires) {
                Ok(g) => gates.push(g),
                Err(e) => {
                    proof {
                        assert(!spec_gate_line_ok(spec_tokens(ls[4 + li as int]), num_wires));
                        if spec_circuit_accepts(content@) {
                            assert(spec_gate_line_ok(spec_tokens(ls[4 + li as int]), num_wires));
                        }
                    }
                    return Err(e);
                },
            }
            li += 1;
        }

        let c = Circuit { gates, inputs, outputs, num_wires };
        proof {
            assert(c.spec_inputs() =~= groups_view(c.inputs));
            assert(c.spec_outputs() =~= groups_view(c.outputs));
            assert forall|g: int, k: int|
                0 <= g < c.spec_inputs().len() && 0 <= k
                    < c.spec_inputs()[g].len() implies #[trigger] c.spec_inputs()[g][k]
                < c.spec_num_wires() by {
                assert(c.spec_inputs()[g][k] == spec_sum_upto(c.spec_inputs(), g) + k);
                Self::lemma_sum_upto_le(c.spec_inputs(), g);
            };
            assert forall|g: int, k: int|
                0 <= g < c.spec_outputs().len() && 0 <= k
                    < c.spec_outputs()[g].len() implies #[trigger] c.spec_outputs()[g][k]
                < c.spec_num_wires() by {
                assert(c.spec_outputs()[g][k] == c.spec_num_wires() - total_out + spec_sum_upto(
                    c.spec_outputs(),
                    g,
                ) + k);
                Self::lemma_sum_upto_le(c.spec_outputs(), g);
                assert(spec_sum_upto(c.spec_outputs(), c.spec_outputs().len() as int)
                    == total_out);
            };
            // The circuit is exactly what the header numbers and gate lines
            // describe.
            assert(c.spec_gates() == gates@);
            assert(c.spec_inputs().len() == ni);
            assert(c.spec_outputs().len() == num_outputs);
            assert forall|a: int|
                0 <= a < c.spec_inputs().len() implies spec_parse_u32(hts[3 + a]) == Some(
                (#[trigger] c.spec_inputs()[a]).len() as u32,
            ) by {
                assert(c.spec_inputs()[a] == inputs@[a]@);
            };
            assert forall|a: int|
                0 <= a < c.spec_outputs().len() implies spec_parse_u32(hts[4 + ni + a]) == Some(
                (#[trigger] c.spec_outputs()[a]).len() as u32,
            ) by {
                assert(c.spec_outputs()[a] == outputs@[a]@);
                assert(outputs@[a]@.len() == out_lens@[a]);
            };
            assert(spec_circuit_matches(content@, c));
            assert(spec_circuit_accepts(content@)) by {
                assert(spec_num_at(hts, 0) == Some(num_gates));
                assert(spec_num_at(hts, 1) == Some(num_wires));
                assert(spec_num_at(hts, 2) == Some(num_inputs));
                assert(spec_lens_ok(hts, 3, num_inputs as int, num_wires, 0));
                assert(spec_num_at(hts, 3 + ni) == Some(num_outputs));
                assert(spec_lens_ok(hts, 4 + ni, num_outputs as int, num_wires, 0));
                assert(ls.len() - 4 >= num_gates);
                assert(forall|k: int|
                    0 <= k < num_gates ==> spec_gate_line_ok(
                        #[trigger] spec_tokens(ls[4 + k]),
                        num_wires,
                    ));
            };
        }
        Ok(c)
    }

    /// The next header token as a number, advancing the cursor.
    fn next_header_number(toks: &Vec<Vec<u8>>, hidx: &mut usize) -> (r: Option<u32>)
        ensures
            *final(hidx) == *old(hidx) + 1 || r is None,
            match r {
                Some(v) => *old(hidx) < bytes_view(*toks).len() && *final(hidx) == *old(hidx) + 1
                    && spec_num_at(bytes_view(*toks), *old(hidx) as int) == Some(v),
                None => spec_num_at(bytes_view(*toks), *old(hidx) as int) is None,
            },
    {
        if *hidx >= toks.len() {
            return None;
        }
        let t = &toks[*hidx];
        proof {
            assert(t@ == bytes_view(*toks)[*hidx as int]);
        }
        match parse_u32_tok(t) {
            Some(v) => {
                if *hidx == usize::MAX {
                    return None;
                }
                *hidx = *hidx + 1;
                Some(v)
            },
            None => None,
        }
    }

    /// Parse one gate line: `fan_in fan_out in.. out TYPE`, with every wire
    /// below `num_wires`.
    fn parse_gate_line(ts: &Vec<Vec<u8>>, num_wires: u32) -> (r: Result<Gate, CircuitError>)
        ensures
            match r {
                Ok(g) => g.wf(num_wires as int) && spec_gate_matches(g, bytes_view(*ts))
                    && spec_gate_line_ok(bytes_view(*ts), num_wires),
                Err(_) => !spec_gate_line_ok(bytes_view(*ts), num_wires),
            },
    {
        if ts.len() < 1 {
            return Err(CircuitError::Truncated);
        }
        let ty = &ts[ts.len() - 1];
        proof {
            assert(ty@ == bytes_view(*ts)[ts@.len() - 1]);
            assert(bytes_view(*ts).last() == ty@);
        }
        let is_and = tok_is(ty, 65u8, 78u8, 68u8);
        let is_xor = tok_is(ty, 88u8, 79u8, 82u8);
        let is_inv = tok_is(ty, 73u8, 78u8, 86u8);
        if !(is_and || is_xor || is_inv) {
            return Err(CircuitError::BadGate);
        }
        let fan_in: usize = if is_inv {
            1
        } else {
            2
        };
        // fan_in, fan_out, the input wires, one output wire.
        if ts.len() < 1 + 2 + fan_in + 1 {
            return Err(CircuitError::Truncated);
        }
        let declared_opt = parse_u32_tok(&ts[0]);
        proof {
            assert(ts@[0]@ == bytes_view(*ts)[0]);
        }
        let declared = match declared_opt {
            Some(v) => v,
            None => {
                return Err(CircuitError::BadNumber);
            },
        };
        if declared as usize != fan_in {
            return Err(CircuitError::BadGate);
        }
        proof {
            assert(ts@[0]@ == bytes_view(*ts)[0]);
            assert(spec_parse_u32(bytes_view(*ts)[0]) == Some(fan_in as u32));
            assert(ty@ == bytes_view(*ts)[ts@.len() - 1]);
            if is_inv {
                assert(bytes_view(*ts).last() =~= seq![73u8, 78u8, 86u8]);
            } else if is_and {
                assert(bytes_view(*ts).last() =~= seq![65u8, 78u8, 68u8]);
            } else {
                assert(bytes_view(*ts).last() =~= seq![88u8, 79u8, 82u8]);
            }
        }
        proof {
            let tv = bytes_view(*ts);
            if spec_gate_line_ok(tv, num_wires) {
                if is_inv {
                    assert(forall|x: int|
                        0 <= x < fan_in + 1 ==> (#[trigger] spec_parse_u32(tv[2 + x])) is Some
                            && spec_parse_u32(tv[2 + x]).unwrap() < num_wires);
                } else {
                    assert(tv.last() != seq![73u8, 78u8, 86u8]);
                    assert(forall|x: int|
                        0 <= x < fan_in + 1 ==> (#[trigger] spec_parse_u32(tv[2 + x])) is Some
                            && spec_parse_u32(tv[2 + x]).unwrap() < num_wires);
                }
            }
        }
        let mut wires: Vec<u32> = Vec::new();
        let mut k: usize = 0;
        while k < fan_in + 1
            invariant
                1 <= fan_in <= 2,
                fan_in + 1 + 2 <= ts@.len(),
                ts@.len() <= usize::MAX,
                spec_gate_line_ok(bytes_view(*ts), num_wires) ==> (forall|x: int|
                    0 <= x < fan_in + 1 ==> (#[trigger] spec_parse_u32(
                        bytes_view(*ts)[2 + x],
                    )) is Some && spec_parse_u32(bytes_view(*ts)[2 + x]).unwrap() < num_wires),
                k <= fan_in + 1,
                wires@.len() == k,
                forall|x: int| 0 <= x < k ==> (#[trigger] wires@[x]) < num_wires,
                forall|x: int|
                    0 <= x < k ==> spec_parse_u32(bytes_view(*ts)[2 + x]) == Some(
                        #[trigger] wires@[x],
                    ),
            decreases fan_in + 1 - k,
        {
            let wopt = parse_u32_tok(&ts[2 + k]);
            proof {
                assert(ts@[2 + k as int]@ == bytes_view(*ts)[2 + k as int]);
            }
            let w = match wopt {
                Some(v) => v,
                None => {
                    proof {
                        let tv = bytes_view(*ts);
                        if spec_gate_line_ok(tv, num_wires) {
                            assert(spec_parse_u32(tv[2 + k as int]) is Some);
                        }
                    }
                    return Err(CircuitError::BadNumber);
                },
            };
            if w >= num_wires {
                proof {
                    let tv = bytes_view(*ts);
                    if spec_gate_line_ok(tv, num_wires) {
                        assert(spec_parse_u32(tv[2 + k as int]).unwrap() < num_wires);
                    }
                }
                return Err(CircuitError::WireRange);
            }
            wires.push(w);
            k += 1;
        }
        if is_inv {
            let g = Gate::Inv(GateInfo { inp: [wires[0]], out: wires[1] });
            proof {
                assert(g.wf(num_wires as int));
                assert(spec_gate_matches(g, bytes_view(*ts)));
            }
            Ok(g)
        } else if is_and {
            let g = Gate::And(GateInfo { inp: [wires[0], wires[1]], out: wires[2] });
            proof {
                assert(g.wf(num_wires as int));
                assert(spec_gate_matches(g, bytes_view(*ts)));
            }
            Ok(g)
        } else {
            let g = Gate::Xor(GateInfo { inp: [wires[0], wires[1]], out: wires[2] });
            proof {
                assert(g.wf(num_wires as int));
                assert(spec_gate_matches(g, bytes_view(*ts)));
            }
            Ok(g)
        }
    }

    /// Appending a group does not change the sums over the earlier prefix.
    proof fn lemma_sum_upto_prefix(olds: Seq<Seq<WireID>>, news: Seq<Seq<WireID>>, a: int)
        requires
            news.len() == olds.len() + 1,
            news.drop_last() == olds,
            0 <= a <= olds.len(),
        ensures
            spec_sum_upto(news, a) == spec_sum_upto(olds, a),
        decreases a,
    {
        if a > 0 {
            Self::lemma_sum_upto_prefix(olds, news, a - 1);
            assert(news[a - 1] == olds[a - 1]);
        }
    }

    /// Group sums only grow along the prefix order.
    proof fn lemma_sum_upto_le(groups: Seq<Seq<WireID>>, g: int)
        requires
            0 <= g < groups.len(),
        ensures
            spec_sum_upto(groups, g) + groups[g].len() <= spec_sum_upto(
                groups,
                groups.len() as int,
            ),
        decreases groups.len() - g,
    {
        if g + 1 < groups.len() {
            Self::lemma_sum_upto_le(groups, g + 1);
        }
    }

    /// The suffix sum starting at `g` is the length at `g` plus the rest.
    proof fn lemma_sum_suffix_first(lens: Seq<u32>, g: int)
        requires
            0 <= g < lens.len(),
        ensures
            spec_sum_lens_u32(lens.subrange(g, lens.len() as int)) == lens[g]
                + spec_sum_lens_u32(lens.subrange(g + 1, lens.len() as int)),
    {
        let suf = lens.subrange(g, lens.len() as int);
        assert(suf.drop_first() =~= lens.subrange(g + 1, lens.len() as int));
    }
}

/// The sum of a sequence of group lengths.
pub open spec fn spec_sum_lens_u32(lens: Seq<u32>) -> int
    decreases lens.len(),
{
    if lens.len() == 0 {
        0
    } else {
        lens.first() + spec_sum_lens_u32(lens.drop_first())
    }
}

proof fn lemma_sum_lens_push(lens: Seq<u32>, x: u32)
    ensures
        spec_sum_lens_u32(lens.push(x)) == spec_sum_lens_u32(lens) + x,
    decreases lens.len(),
{
    reveal_with_fuel(spec_sum_lens_u32, 3);
    if lens.len() == 0 {
        assert(lens.push(x).first() == x);
        assert(lens.push(x).drop_first() =~= Seq::<u32>::empty());
        assert(spec_sum_lens_u32(Seq::<u32>::empty()) == 0);
    } else {
        assert(lens.push(x).first() == lens.first());
        assert(lens.push(x).drop_first() =~= lens.drop_first().push(x));
        lemma_sum_lens_push(lens.drop_first(), x);
    }
}

proof fn lemma_sum_lens_nonneg(lens: Seq<u32>)
    ensures
        spec_sum_lens_u32(lens) >= 0,
    decreases lens.len(),
{
    if lens.len() > 0 {
        lemma_sum_lens_nonneg(lens.drop_first());
    }
}

/// One block of packed gates: input position `i` is stored as the column of
/// the `i`-th input wires across the block, and `out` as the column of
/// output wires.
#[derive(Clone)]
pub struct PackedGateInfo<const N: usize> {
    pub inp: [Vec<WireID>; N],
    pub out: Vec<WireID>,
}

/// One packed block of gates of a single kind.
#[derive(Clone)]
pub enum PackedGate {
    Xor(PackedGateInfo<2>),
    And(PackedGateInfo<2>),
    Inv(PackedGateInfo<1>),
}

/// A circuit repartitioned into blocks of at most `gates_per_block` gates of
/// one kind each; inputs and outputs are flattened and chunked the same way.
#[derive(Clone)]
pub struct PackedCircuit {
    gates: Vec<PackedGate>,
    inputs: Vec<Vec<WireID>>,
    outputs: Vec<Vec<WireID>>,
    num_wires: u32,
    gates_per_block: u32,
}

/// The AND gates of a gate list, in order.
pub open spec fn spec_and_infos(gates: Seq<Gate>) -> Seq<GateInfo<2>>
    decreases gates.len(),
{
    if gates.len() == 0 {
        Seq::empty()
    } else {
        let rest = spec_and_infos(gates.drop_last());
        match gates.last() {
            Gate::And(gi) => rest.push(gi),
            _ => rest,
        }
    }
}

/// The XOR gates of a gate list, in order.
pub open spec fn spec_xor_infos(gates: Seq<Gate>) -> Seq<GateInfo<2>>
    decreases gates.len(),
{
    if gates.len() == 0 {
        Seq::empty()
    } else {
        let rest = spec_xor_infos(gates.drop_last());
        match gates.last() {
            Gate::Xor(gi) => rest.push(gi),
            _ => rest,
        }
    }
}

/// The INV gates of a gate list, in order.
pub open spec fn spec_inv_infos(gates: Seq<Gate>) -> Seq<GateInfo<1>>
    decreases gates.len(),
{
    if gates.len() == 0 {
        Seq::empty()
    } else {
        let rest = spec_inv_infos(gates.drop_last());
        match gates.last() {
            Gate::Inv(gi) => rest.push(gi),
            _ => rest,
        }
    }
}

/// How often wire `w` occurs among the inputs of two-input gates.
pub open spec fn spec_fan_out2(gs: Seq<GateInfo<2>>, w: int) -> int
    decreases gs.len(),
{
    if gs.len() == 0 {
        0
    } else {
        spec_fan_out2(gs.drop_last(), w) + (if gs.last().inp@[0] == w {
            1int
        } else {
            0int
        }) + (if gs.last().inp@[1] == w {
            1int
        } else {
            0int
        })
    }
}

/// How often wire `w` occurs among the inputs of one-input gates.
pub open spec fn spec_fan_out1(gs: Seq<GateInfo<1>>, w: int) -> int
    decreases gs.len(),
{
    if gs.len() == 0 {
        0
    } else {
        spec_fan_out1(gs.drop_last(), w) + (if gs.last().inp@[0] == w {
            1int
        } else {
            0int
        })
    }
}

/// Lexicographic order on (fan-out count, wire id) pairs.
pub open spec fn pair_le(a: (int, int), b: (int, int)) -> bool {
    a.0 < b.0 || (a.0 == b.0 && a.1 <= b.1)
}

/// The sort key of a two-input gate: the larger of its input wires' (count,
/// wire) pairs.
pub open spec fn spec_key2(counts: Seq<u64>, g: GateInfo<2>) -> (int, int) {
    let p0 = (counts[g.inp@[0] as int] as int, g.inp@[0] as int);
    let p1 = (counts[g.inp@[1] as int] as int, g.inp@[1] as int);
    if pair_le(p0, p1) {
        p1
    } else {
        p0
    }
}

/// The sort key of a one-input gate.
pub open spec fn spec_key1(counts: Seq<u64>, g: GateInfo<1>) -> (int, int) {
    (counts[g.inp@[0] as int] as int, g.inp@[0] as int)
}

/// The gates are in ascending key order.
pub open spec fn sorted_by2(counts: Seq<u64>, gs: Seq<GateInfo<2>>) -> bool {
    forall|i: int, j: int|
        0 <= i < j < gs.len() ==> pair_le(spec_key2(counts, gs[i]), spec_key2(counts, gs[j]))
}

/// The gates are in ascending key order.
pub open spec fn sorted_by1(counts: Seq<u64>, gs: Seq<GateInfo<1>>) -> bool {
    forall|i: int, j: int|
        0 <= i < j < gs.len() ==> pair_le(spec_key1(counts, gs[i]), spec_key1(counts, gs[j]))
}

/// A sequence split into consecutive chunks of length `b`, the last chunk
/// possibly shorter.
pub open spec fn spec_chunks<T>(s: Seq<T>, b: int) -> Seq<Seq<T>>
    decreases s.len(),
{
    if b < 1 || s.len() == 0 {
        Seq::empty()
    } else if s.len() <= b {
        seq![s]
    } else {
        seq![s.subrange(0, b)] + spec_chunks(s.subrange(b, s.len() as int), b)
    }
}

/// The number of chunks is the length divided by `b`, rounded up.
pub proof fn lemma_chunks_len<T>(s: Seq<T>, b: int)
    requires
        b >= 1,
    ensures
        spec_chunks(s, b).len() == if s.len() == 0 {
            0int
        } else {
            (s.len() - 1) / b + 1
        },
    decreases s.len(),
{
    if s.len() == 0 {
    } else if s.len() <= b {
        assert((s.len() - 1) / b == 0) by {
            vstd::arithmetic::div_mod::lemma_basic_div(s.len() - 1, b);
        };
    } else {
        let rest = s.subrange(b, s.len() as int);
        lemma_chunks_len(rest, b);
        assert((s.len() - 1) / b == (s.len() - 1 - b) / b + 1) by {
            vstd::arithmetic::div_mod::lemma_div_plus_one(s.len() - 1 - b, b);
        };
    }
}

/// The groups of a wire-group list, flattened into one sequence.
pub open spec fn spec_flatten(groups: Seq<Seq<WireID>>) -> Seq<WireID>
    decreases groups.len(),
{
    if groups.len() == 0 {
        Seq::empty()
    } else {
        spec_flatten(groups.drop_last()) + groups.last()
    }
}

/// A packed block holds exactly the columns of a run of gates.
pub open spec fn block_matches2(pb: PackedGateInfo<2>, ch: Seq<GateInfo<2>>) -> bool {
    &&& pb.inp@[0]@.len() == ch.len()
    &&& pb.inp@[1]@.len() == ch.len()
    &&& pb.out@.len() == ch.len()
    &&& (forall|k: int|
        0 <= k < ch.len() ==> pb.inp@[0]@[k] == (#[trigger] ch[k]).inp@[0] && pb.inp@[1]@[k]
            == ch[k].inp@[1] && pb.out@[k] == ch[k].out)
}

/// A packed block holds exactly the columns of a run of gates.
pub open spec fn block_matches1(pb: PackedGateInfo<1>, ch: Seq<GateInfo<1>>) -> bool {
    &&& pb.inp@[0]@.len() == ch.len()
    &&& pb.out@.len() == ch.len()
    &&& (forall|k: int|
        0 <= k < ch.len() ==> pb.inp@[0]@[k] == (#[trigger] ch[k]).inp@[0] && pb.out@[k]
            == ch[k].out)
}

/// The blocks pack some reordering of `infos`: a key-sorted permutation,
/// split into chunks of `b`.
pub open spec fn packs2(
    counts: Seq<u64>,
    infos: Seq<GateInfo<2>>,
    blocks: Seq<PackedGateInfo<2>>,
    b: int,
) -> bool {
    exists|sorted: Seq<GateInfo<2>>|
        {
            &&& sorted.to_multiset() == infos.to_multiset()
            &&& sorted.len() == infos.len()
            &&& sorted_by2(counts, sorted)
            &&& blocks.len() == spec_chunks(sorted, b).len()
            &&& (forall|c: int|
                0 <= c < blocks.len() ==> block_matches2(
                    #[trigger] blocks[c],
                    spec_chunks(sorted, b)[c],
                ))
        }
}

/// The blocks pack some reordering of `infos`: a key-sorted permutation,
/// split into chunks of `b`.
pub open spec fn packs1(
    counts: Seq<u64>,
    infos: Seq<GateInfo<1>>,
    blocks: Seq<PackedGateInfo<1>>,
    b: int,
) -> bool {
    exists|sorted: Seq<GateInfo<1>>|
        {
            &&& sorted.to_multiset() == infos.to_multiset()
            &&& sorted.len() == infos.len()
            &&& sorted_by1(counts, sorted)
            &&& blocks.len() == spec_chunks(sorted, b).len()
            &&& (forall|c: int|
                0 <= c < blocks.len() ==> block_matches1(
                    #[trigger] blocks[c],
                    spec_chunks(sorted, b)[c],
                ))
        }
}

/// Count the fan-out of every wire over the inputs of two-input gates.
fn fan_outs2(gs: &Vec<GateInfo<2>>, nw: usize) -> (counts: Vec<u64>)
    requires
        gs@.len() <= 0xFFFFFFFFu64,
        forall|i: int|
            0 <= i < gs@.len() ==> (#[trigger] gs@[i]).inp@[0] < nw && gs@[i].inp@[1] < nw,
    ensures
        counts@.len() == nw,
        forall|w: int| 0 <= w < nw ==> #[trigger] counts@[w] == spec_fan_out2(gs@, w),
{
    let mut counts: Vec<u64> = Vec::new();
    let mut z: usize = 0;
    while z < nw
        invariant
            z <= nw,
            counts@.len() == z,
            forall|w: int| 0 <= w < z ==> #[trigger] counts@[w] == 0,
        decreases nw - z,
    {
        counts.push(0);
        z += 1;
    }
    let mut i: usize = 0;
    while i < gs.len()
        invariant
            gs@.len() <= 0xFFFFFFFFu64,
            forall|k: int|
                0 <= k < gs@.len() ==> (#[trigger] gs@[k]).inp@[0] < nw && gs@[k].inp@[1] < nw,
            i <= gs@.len(),
            counts@.len() == nw,
            forall|w: int|
                0 <= w < nw ==> #[trigger] counts@[w] == spec_fan_out2(
                    gs@.subrange(0, i as int),
                    w,
                ) && counts@[w] <= 2 * i,
        decreases gs@.len() - i,
    {
        let c0 = gs[i].inp[0];
        let c1 = gs[i].inp[1];
        let ghost before = counts@;
        let v0 = counts[c0 as usize];
        counts[c0 as usize] = v0 + 1;
        let v1 = counts[c1 as usize];
        counts[c1 as usize] = v1 + 1;
        proof {
            assert(gs@.subrange(0, i + 1).drop_last() =~= gs@.subrange(0, i as int));
            assert(gs@.subrange(0, i + 1).last() == gs@[i as int]);
        }
        i += 1;
    }
    proof {
        assert(gs@.subrange(0, gs@.len() as int) =~= gs@);
    }
    counts
}

/// Count the fan-out of every wire over the inputs of one-input gates.
fn fan_outs1(gs: &Vec<GateInfo<1>>, nw: usize) -> (counts: Vec<u64>)
    requires
        gs@.len() <= 0xFFFFFFFFu64,
        forall|i: int| 0 <= i < gs@.len() ==> (#[trigger] gs@[i]).inp@[0] < nw,
    ensures
        counts@.len() == nw,
        forall|w: int| 0 <= w < nw ==> #[trigger] counts@[w] == spec_fan_out1(gs@, w),
{
    let mut counts: Vec<u64> = Vec::new();
    let mut z: usize = 0;
    while z < nw
        invariant
            z <= nw,
            counts@.len() == z,
            forall|w: int| 0 <= w < z ==> #[trigger] counts@[w] == 0,
        decreases nw - z,
    {
        counts.push(0);
        z += 1;
    }
    let mut i: usize = 0;
    while i < gs.len()
        invariant
            gs@.len() <= 0xFFFFFFFFu64,
            forall|k: int| 0 <= k < gs@.len() ==> (#[trigger] gs@[k]).inp@[0] < nw,
            i <= gs@.len(),
            counts@.len() == nw,
            forall|w: int|
                0 <= w < nw ==> #[trigger] counts@[w] == spec_fan_out1(
                    gs@.subrange(0, i as int),
                    w,
                ) && counts@[w] <= i,
        decreases gs@.len() - i,
    {
        let c0 = gs[i].inp[0];
        let v0 = counts[c0 as usize];
        counts[c0 as usize] = v0 + 1;
        proof {
            assert(gs@.subrange(0, i + 1).drop_last() =~= gs@.subrange(0, i as int));
            assert(gs@.subrange(0, i + 1).last() == gs@[i as int]);
        }
        i += 1;
    }
    proof {
        assert(gs@.subrange(0, gs@.len() as int) =~= gs@);
    }
    counts
}

/// Does `a` sort strictly after `b`?
fn key_gt2(counts: &Vec<u64>, a: &GateInfo<2>, b: &GateInfo<2>) -> (r: bool)
    requires
        a.inp@[0] < counts@.len(),
        a.inp@[1] < counts@.len(),
        b.inp@[0] < counts@.len(),
        b.inp@[1] < counts@.len(),
    ensures
        r == !pair_le(spec_key2(counts@, *a), spec_key2(counts@, *b)),
{
    let (a0, a1) = max_pair2(counts, a);
    let (b0, b1) = max_pair2(counts, b);
    !(a0 < b0 || (a0 == b0 && a1 <= b1))
}

/// The larger (count, wire) pair of a two-input gate.
fn max_pair2(counts: &Vec<u64>, g: &GateInfo<2>) -> (r: (u64, u32))
    requires
        g.inp@[0] < counts@.len(),
        g.inp@[1] < counts@.len(),
    ensures
        r.0 == spec_key2(counts@, *g).0,
        r.1 == spec_key2(counts@, *g).1,
{
    let c0 = counts[g.inp[0] as usize];
    let c1 = counts[g.inp[1] as usize];
    if c0 < c1 || (c0 == c1 && g.inp[0] <= g.inp[1]) {
        (c1, g.inp[1])
    } else {
        (c0, g.inp[0])
    }
}

/// Does `a` sort strictly after `b`?
fn key_gt1(counts: &Vec<u64>, a: &GateInfo<1>, b: &GateInfo<1>) -> (r: bool)
    requires
        a.inp@[0] < counts@.len(),
        b.inp@[0] < counts@.len(),
    ensures
        r == !pair_le(spec_key1(counts@, *a), spec_key1(counts@, *b)),
{
    let ca = counts[a.inp[0] as usize];
    let cb = counts[b.inp[0] as usize];
    !(ca < cb || (ca == cb && a.inp[0] <= b.inp[0]))
}

/// Sort two-input gates by ascending (fan-out, wire) key: a stable insertion
/// sort.
fn sort_gates2(counts: &Vec<u64>, gates: &Vec<GateInfo<2>>) -> (r: Vec<GateInfo<2>>)
    requires
        forall|i: int|
            0 <= i < gates@.len() ==> (#[trigger] gates@[i]).inp@[0] < counts@.len()
                && gates@[i].inp@[1] < counts@.len(),
    ensures
        r@.len() == gates@.len(),
        r@.to_multiset() == gates@.to_multiset(),
        sorted_by2(counts@, r@),
        forall|i: int|
            0 <= i < r@.len() ==> (#[trigger] r@[i]).inp@[0] < counts@.len() && r@[i].inp@[1]
                < counts@.len(),
{
    proof {
        broadcast use vstd::seq_lib::group_to_multiset_ensures;

    }
    let mut r: Vec<GateInfo<2>> = Vec::new();
    let mut i: usize = 0;
    while i < gates.len()
        invariant
            forall|k: int|
                0 <= k < gates@.len() ==> (#[trigger] gates@[k]).inp@[0] < counts@.len()
                    && gates@[k].inp@[1] < counts@.len(),
            i <= gates@.len(),
            r@.len() == i,
            r@.to_multiset() == gates@.subrange(0, i as int).to_multiset(),
            sorted_by2(counts@, r@),
            forall|k: int|
                0 <= k < r@.len() ==> (#[trigger] r@[k]).inp@[0] < counts@.len() && r@[k].inp@[1]
                    < counts@.len(),
        decreases gates@.len() - i,
    {
        let g = gates[i];
        let mut p: usize = r.len();
        while p > 0 && key_gt2(counts, &r[p - 1], &g)
            invariant
                p <= r@.len(),
                forall|k: int|
                    0 <= k < r@.len() ==> (#[trigger] r@[k]).inp@[0] < counts@.len()
                        && r@[k].inp@[1] < counts@.len(),
                g.inp@[0] < counts@.len() && g.inp@[1] < counts@.len(),
                forall|k: int|
                    p <= k < r@.len() ==> !pair_le(
                        spec_key2(counts@, #[trigger] r@[k]),
                        spec_key2(counts@, g),
                    ),
                sorted_by2(counts@, r@),
            decreases p,
        {
            p -= 1;
        }
        let ghost old_r = r@;
        r.insert(p, g);
        proof {
            broadcast use vstd::seq_lib::group_to_multiset_ensures;

            vstd::seq_lib::to_multiset_insert(old_r, p as int, g);
            assert(gates@.subrange(0, i + 1) =~= gates@.subrange(0, i as int).push(
                gates@[i as int],
            ));
            assert(r@.to_multiset() == gates@.subrange(0, i + 1).to_multiset());
            assert forall|a: int, b: int| 0 <= a < b < r@.len() implies pair_le(
                spec_key2(counts@, r@[a]),
                spec_key2(counts@, r@[b]),
            ) by {
                if a < p && b == p {
                    assert(pair_le(spec_key2(counts@, old_r[p - 1]), spec_key2(counts@, g)));
                    if a < p - 1 {
                        assert(pair_le(
                            spec_key2(counts@, old_r[a]),
                            spec_key2(counts@, old_r[p - 1]),
                        ));
                    }
                } else if a == p && b > p {
                    assert(!pair_le(spec_key2(counts@, old_r[b - 1]), spec_key2(counts@, g)));
                }
            };
        }
        i += 1;
    }
    proof {
        assert(gates@.subrange(0, gates@.len() as int) =~= gates@);
    }
    r
}

/// Sort one-input gates by ascending (fan-out, wire) key.
fn sort_gates1(counts: &Vec<u64>, gates: &Vec<GateInfo<1>>) -> (r: Vec<GateInfo<1>>)
    requires
        forall|i: int| 0 <= i < gates@.len() ==> (#[trigger] gates@[i]).inp@[0] < counts@.len(),
    ensures
        r@.len() == gates@.len(),
        r@.to_multiset() == gates@.to_multiset(),
        sorted_by1(counts@, r@),
        forall|i: int| 0 <= i < r@.len() ==> (#[trigger] r@[i]).inp@[0] < counts@.len(),
{
    proof {
        broadcast use vstd::seq_lib::group_to_multiset_ensures;

    }
    let mut r: Vec<GateInfo<1>> = Vec::new();
    let mut i: usize = 0;
    while i < gates.len()
        invariant
            forall|k: int|
                0 <= k < gates@.len() ==> (#[trigger] gates@[k]).inp@[0] < counts@.len(),
            i <= gates@.len(),
            r@.len() == i,
            r@.to_multiset() == gates@.subrange(0, i as int).to_multiset(),
            sorted_by1(counts@, r@),
            forall|k: int| 0 <= k < r@.len() ==> (#[trigger] r@[k]).inp@[0] < counts@.len(),
        decreases gates@.len() - i,
    {
        let g = gates[i];
        let mut p: usize = r.len();
        while p > 0 && key_gt1(counts, &r[p - 1], &g)
            invariant
                p <= r@.len(),
                forall|k: int| 0 <= k < r@.len() ==> (#[trigger] r@[k]).inp@[0] < counts@.len(),
                g.inp@[0] < counts@.len(),
                forall|k: int|
                    p <= k < r@.len() ==> !pair_le(
                        spec_key1(counts@, #[trigger] r@[k]),
                        spec_key1(counts@, g),
                    ),
                sorted_by1(counts@, r@),
            decreases p,
        {
            p -= 1;
        }
        let ghost old_r = r@;
        r.insert(p, g);
        proof {
            broadcast use vstd::seq_lib::group_to_multiset_ensures;

            vstd::seq_lib::to_multiset_insert(old_r, p as int, g);
            assert(gates@.subrange(0, i + 1) =~= gates@.subrange(0, i as int).push(
                gates@[i as int],
            ));
            assert(r@.to_multiset() == gates@.subrange(0, i + 1).to_multiset());
            assert forall|a: int, b: int| 0 <= a < b < r@.len() implies pair_le(
                spec_key1(counts@, r@[a]),
                spec_key1(counts@, r@[b]),
            ) by {
                if a < p && b == p {
                    assert(pair_le(spec_key1(counts@, old_r[p - 1]), spec_key1(counts@, g)));
                    if a < p - 1 {
                        assert(pair_le(
                            spec_key1(counts@, old_r[a]),
                            spec_key1(counts@, old_r[p - 1]),
                        ));
                    }
                } else if a == p && b > p {
                    assert(!pair_le(spec_key1(counts@, old_r[b - 1]), spec_key1(counts@, g)));
                }
            };
        }
        i += 1;
    }
    proof {
        assert(gates@.subrange(0, gates@.len() as int) =~= gates@);
    }
    r
}

/// One chunking step: the first chunk of the suffix starting at `idx` is
/// the next `cnt` elements, and the rest chunks the remaining suffix.
proof fn lemma_chunks_step<T>(s: Seq<T>, idx: int, b: int)
    requires
        0 <= idx < s.len(),
        b >= 1,
    ensures
        ({
            let suffix = s.subrange(idx, s.len() as int);
            let cnt = if s.len() - idx < b {
                s.len() - idx
            } else {
                b
            };
            &&& spec_chunks(suffix, b).len() >= 1
            &&& spec_chunks(suffix, b)[0] == s.subrange(idx, idx + cnt)
            &&& (idx + cnt < s.len() ==> spec_chunks(suffix, b) == seq![
                s.subrange(idx, idx + cnt),
            ] + spec_chunks(s.subrange(idx + cnt, s.len() as int), b))
            &&& (idx + cnt == s.len() ==> spec_chunks(suffix, b) == seq![
                s.subrange(idx, idx + cnt),
            ])
        }),
{
    let suffix = s.subrange(idx, s.len() as int);
    let cnt = if s.len() - idx < b {
        s.len() - idx
    } else {
        b
    };
    assert(suffix.subrange(0, cnt) =~= s.subrange(idx, idx + cnt));
    if suffix.len() <= b {
        assert(spec_chunks(suffix, b) == seq![suffix]);
        assert(suffix =~= s.subrange(idx, idx + cnt));
        assert(spec_chunks(suffix, b) =~= seq![s.subrange(idx, idx + cnt)]);
    } else {
        assert(suffix.subrange(b, suffix.len() as int) =~= s.subrange(idx + cnt, s.len() as int));
        assert(spec_chunks(suffix, b) == seq![suffix.subrange(0, b)] + spec_chunks(
            s.subrange(idx + cnt, s.len() as int),
            b,
        ));
        assert(spec_chunks(suffix, b) =~= seq![s.subrange(idx, idx + cnt)] + spec_chunks(
            s.subrange(idx + cnt, s.len() as int),
            b,
        ));
    }
}

/// The columns of the gates `gs[a..c]` as one packed block.
fn block_from2(gs: &Vec<GateInfo<2>>, a: usize, c: usize) -> (pb: PackedGateInfo<2>)
    requires
        a <= c <= gs@.len(),
    ensures
        block_matches2(pb, gs@.subrange(a as int, c as int)),
{
    let mut col0: Vec<WireID> = Vec::new();
    let mut col1: Vec<WireID> = Vec::new();
    let mut out: Vec<WireID> = Vec::new();
    let mut k: usize = a;
    while k < c
        invariant
            a <= k <= c <= gs@.len(),
            col0@.len() == k - a,
            col1@.len() == k - a,
            out@.len() == k - a,
            forall|x: int| 0 <= x < k - a ==> #[trigger] col0@[x] == gs@[a + x].inp@[0],
            forall|x: int| 0 <= x < k - a ==> #[trigger] col1@[x] == gs@[a + x].inp@[1],
            forall|x: int| 0 <= x < k - a ==> #[trigger] out@[x] == gs@[a + x].out,
        decreases c - k,
    {
        col0.push(gs[k].inp[0]);
        col1.push(gs[k].inp[1]);
        out.push(gs[k].out);
        k += 1;
    }
    let pb = PackedGateInfo { inp: [col0, col1], out };
    proof {
        assert(pb.inp@[0] == col0);
        assert(pb.inp@[1] == col1);
        let ch = gs@.subrange(a as int, c as int);
        assert forall|k: int|
            0 <= k < ch.len() implies pb.inp@[0]@[k] == (#[trigger] ch[k]).inp@[0]
            && pb.inp@[1]@[k] == ch[k].inp@[1] && pb.out@[k] == ch[k].out by {
            assert(ch[k] == gs@[a + k]);
            assert(col0@[k] == gs@[a + k].inp@[0]);
            assert(col1@[k] == gs@[a + k].inp@[1]);
            assert(out@[k] == gs@[a + k].out);
        };
    }
    pb
}

/// The columns of the gates `gs[a..c]` as one packed block.
fn block_from1(gs: &Vec<GateInfo<1>>, a: usize, c: usize) -> (pb: PackedGateInfo<1>)
    requires
        a <= c <= gs@.len(),
    ensures
        block_matches1(pb, gs@.subrange(a as int, c as int)),
{
    let mut col0: Vec<WireID> = Vec::new();
    let mut out: Vec<WireID> = Vec::new();
    let mut k: usize = a;
    while k < c
        invariant
            a <= k <= c <= gs@.len(),
            col0@.len() == k - a,
            out@.len() == k - a,
            forall|x: int|
                0 <= x < k - a ==> #[trigger] col0@[x] == gs@[a + x].inp@[0] && out@[x]
                    == gs@[a + x].out,
        decreases c - k,
    {
        col0.push(gs[k].inp[0]);
        out.push(gs[k].out);
        k += 1;
    }
    let pb = PackedGateInfo { inp: [col0], out };
    proof {
        assert(pb.inp@[0] == col0);
        let ch = gs@.subrange(a as int, c as int);
        assert forall|k: int|
            0 <= k < ch.len() implies pb.inp@[0]@[k] == (#[trigger] ch[k]).inp@[0] && pb.out@[k]
            == ch[k].out by {
            assert(ch[k] == gs@[a + k]);
            assert(col0@[k] == gs@[a + k].inp@[0]);
            assert(out@[k] == gs@[a + k].out);
        };
    }
    pb
}

/// Chunk two-input gates into packed blocks of at most `b` gates.
fn pack_blocks2(gs: &Vec<GateInfo<2>>, b: usize) -> (r: Vec<PackedGateInfo<2>>)
    requires
        b >= 1,
    ensures
        r@.len() == spec_chunks(gs@, b as int).len(),
        forall|c: int|
            0 <= c < r@.len() ==> block_matches2(#[trigger] r@[c], spec_chunks(gs@, b as int)[c]),
{
    let ghost chs = spec_chunks(gs@, b as int);
    proof {
        assert(gs@.subrange(0, gs@.len() as int) =~= gs@);
    }
    let mut r: Vec<PackedGateInfo<2>> = Vec::new();
    let mut idx: usize = 0;
    while idx < gs.len()
        invariant
            b >= 1,
            idx <= gs@.len(),
            chs == spec_chunks(gs@, b as int),
            chs.len() == r@.len() + spec_chunks(
                gs@.subrange(idx as int, gs@.len() as int),
                b as int,
            ).len(),
            forall|m: int|
                0 <= m < spec_chunks(gs@.subrange(idx as int, gs@.len() as int), b as int).len()
                    ==> #[trigger] chs[r@.len() + m] == spec_chunks(
                    gs@.subrange(idx as int, gs@.len() as int),
                    b as int,
                )[m],
            forall|c: int| 0 <= c < r@.len() ==> block_matches2(#[trigger] r@[c], chs[c]),
        decreases gs@.len() - idx,
    {
        let remaining = gs.len() - idx;
        let cnt = if remaining < b {
            remaining
        } else {
            b
        };
        let ghost suffix = gs@.subrange(idx as int, gs@.len() as int);
        let ghost old_r = r@;
        let pb = block_from2(gs, idx, idx + cnt);
        r.push(pb);
        proof {
            lemma_chunks_step(gs@, idx as int, b as int);
            let nsuffix = gs@.subrange(idx + cnt, gs@.len() as int);
            assert(spec_chunks(suffix, b as int).len() >= 1);
            assert(chs[old_r.len() + 0int] == spec_chunks(suffix, b as int)[0]);
            assert(chs[old_r.len() as int] == spec_chunks(suffix, b as int)[0]);
            assert(block_matches2(pb, chs[old_r.len() as int]));
            if idx + cnt < gs@.len() {
                assert forall|m: int| 0 <= m < spec_chunks(nsuffix, b as int).len() implies
                    #[trigger] chs[r@.len() + m] == spec_chunks(nsuffix, b as int)[m] by {
                    assert(spec_chunks(suffix, b as int)[1 + m] == spec_chunks(
                        nsuffix,
                        b as int,
                    )[m]);
                    assert(chs[old_r.len() + (1 + m)] == spec_chunks(suffix, b as int)[1 + m]);
                };
            } else {
                assert(nsuffix.len() == 0);
                assert(spec_chunks(nsuffix, b as int).len() == 0);
            }
        }
        idx += cnt;
    }
    proof {
        assert(spec_chunks(gs@.subrange(idx as int, gs@.len() as int), b as int).len() == 0);
    }
    r
}

/// Chunk one-input gates into packed blocks of at most `b` gates.
fn pack_blocks1(gs: &Vec<GateInfo<1>>, b: usize) -> (r: Vec<PackedGateInfo<1>>)
    requires
        b >= 1,
    ensures
        r@.len() == spec_chunks(gs@, b as int).len(),
        forall|c: int|
            0 <= c < r@.len() ==> block_matches1(#[trigger] r@[c], spec_chunks(gs@, b as int)[c]),
{
    let ghost chs = spec_chunks(gs@, b as int);
    proof {
        assert(gs@.subrange(0, gs@.len() as int) =~= gs@);
    }
    let mut r: Vec<PackedGateInfo<1>> = Vec::new();
    let mut idx: usize = 0;
    while idx < gs.len()
        invariant
            b >= 1,
            idx <= gs@.len(),
            chs == spec_chunks(gs@, b as int),
            chs.len() == r@.len() + spec_chunks(
                gs@.subrange(idx as int, gs@.len() as int),
                b as int,
            ).len(),
            forall|m: int|
                0 <= m < spec_chunks(gs@.subrange(idx as int, gs@.len() as int), b as int).len()
                    ==> #[trigger] chs[r@.len() + m] == spec_chunks(
                    gs@.subrange(idx as int, gs@.len() as int),
                    b as int,
                )[m],
            forall|c: int| 0 <= c < r@.len() ==> block_matches1(#[trigger] r@[c], chs[c]),
        decreases gs@.len() - idx,
    {
        let remaining = gs.len() - idx;
        let cnt = if remaining < b {
            remaining
        } else {
            b
        };
        let ghost suffix = gs@.subrange(idx as int, gs@.len() as int);
        let ghost old_r = r@;
        let pb = block_from1(gs, idx, idx + cnt);
        r.push(pb);
        proof {
            lemma_chunks_step(gs@, idx as int, b as int);
            let nsuffix = gs@.subrange(idx + cnt, gs@.len() as int);
            assert(spec_chunks(suffix, b as int).len() >= 1);
            assert(chs[old_r.len() + 0int] == spec_chunks(suffix, b as int)[0]);
            assert(chs[old_r.len() as int] == spec_chunks(suffix, b as int)[0]);
            assert(block_matches1(pb, chs[old_r.len() as int]));
            if idx + cnt < gs@.len() {
                assert forall|m: int| 0 <= m < spec_chunks(nsuffix, b as int).len() implies
                    #[trigger] chs[r@.len() + m] == spec_chunks(nsuffix, b as int)[m] by {
                    assert(spec_chunks(suffix, b as int)[1 + m] == spec_chunks(
                        nsuffix,
                        b as int,
                    )[m]);
                    assert(chs[old_r.len() + (1 + m)] == spec_chunks(suffix, b as int)[1 + m]);
                };
            } else {
                assert(nsuffix.len() == 0);
                assert(spec_chunks(nsuffix, b as int).len() == 0);
            }
        }
        idx += cnt;
    }
    proof {
        assert(spec_chunks(gs@.subrange(idx as int, gs@.len() as int), b as int).len() == 0);
    }
    r
}

/// Flatten wire groups into one sequence, group boundaries discarded.
fn flatten_groups(groups: &Vec<Vec<WireID>>) -> (r: Vec<WireID>)
    ensures
        r@ == spec_flatten(groups_view(*groups)),
{
    let mut r: Vec<WireID> = Vec::new();
    let mut g: usize = 0;
    while g < groups.len()
        invariant
            g <= groups@.len(),
            r@ == spec_flatten(groups_view(*groups).subrange(0, g as int)),
        decreases groups@.len() - g,
    {
        let group = &groups[g];
        let mut k: usize = 0;
        let ghost start = r@;
        while k < group.len()
            invariant
                g < groups@.len(),
                group@ == groups@[g as int]@,
                k <= group@.len(),
                r@ == start + group@.subrange(0, k as int),
            decreases group@.len() - k,
        {
            r.push(group[k]);
            proof {
                assert(r@ =~= start + group@.subrange(0, k + 1));
            }
            k += 1;
        }
        proof {
            let gv = groups_view(*groups);
            assert(gv.subrange(0, g + 1).drop_last() =~= gv.subrange(0, g as int));
            assert(group@.subrange(0, group@.len() as int) =~= group@);
            assert(gv.subrange(0, g + 1).last() == gv[g as int]);
            assert(r@ =~= spec_flatten(gv.subrange(0, g + 1)));
        }
        g += 1;
    }
    proof {
        assert(groups_view(*groups).subrange(0, groups@.len() as int) =~= groups_view(*groups));
    }
    r
}

/// The nested view of a vector of wire groups.
pub open spec fn groups_view(v: Vec<Vec<WireID>>) -> Seq<Seq<WireID>> {
    Seq::new(v@.len(), |i: int| v@[i]@)
}

/// Chunk a flat wire list into groups of at most `b` wires.
fn chunk_wires(flat: &Vec<WireID>, b: usize) -> (r: Vec<Vec<WireID>>)
    requires
        b >= 1,
    ensures
        groups_view(r) == spec_chunks(flat@, b as int),
{
    let ghost chs = spec_chunks(flat@, b as int);
    proof {
        assert(flat@.subrange(0, flat@.len() as int) =~= flat@);
    }
    let mut r: Vec<Vec<WireID>> = Vec::new();
    let mut idx: usize = 0;
    while idx < flat.len()
        invariant
            b >= 1,
            idx <= flat@.len(),
            chs == spec_chunks(flat@, b as int),
            chs.len() == r@.len() + spec_chunks(
                flat@.subrange(idx as int, flat@.len() as int),
                b as int,
            ).len(),
            forall|m: int|
                0 <= m < spec_chunks(flat@.subrange(idx as int, flat@.len() as int), b as int).len()
                    ==> #[trigger] chs[r@.len() + m] == spec_chunks(
                    flat@.subrange(idx as int, flat@.len() as int),
                    b as int,
                )[m],
            forall|c: int| 0 <= c < r@.len() ==> (#[trigger] r@[c])@ == chs[c],
        decreases flat@.len() - idx,
    {
        let remaining = flat.len() - idx;
        let cnt = if remaining < b {
            remaining
        } else {
            b
        };
        let ghost suffix = flat@.subrange(idx as int, flat@.len() as int);
        let ghost old_r = r@;
        let mut chunk: Vec<WireID> = Vec::new();
        let end = idx + cnt;
        let mut k: usize = idx;
        while k < end
            invariant
                idx <= k <= end,
                end == idx + cnt,
                end <= flat@.len(),
                chunk@.len() == k - idx,
                forall|x: int| 0 <= x < k - idx ==> #[trigger] chunk@[x] == flat@[idx + x],
            decreases idx + cnt - k,
        {
            chunk.push(flat[k]);
            k += 1;
        }
        proof {
            assert(chunk@ =~= flat@.subrange(idx as int, idx + cnt));
        }
        r.push(chunk);
        proof {
            lemma_chunks_step(flat@, idx as int, b as int);
            let nsuffix = flat@.subrange(idx + cnt, flat@.len() as int);
            assert(spec_chunks(suffix, b as int).len() >= 1);
            assert(chs[old_r.len() + 0int] == spec_chunks(suffix, b as int)[0]);
            assert(chs[old_r.len() as int] == spec_chunks(suffix, b as int)[0]);
            assert(r@[old_r.len() as int]@ == chs[old_r.len() as int]);
            if idx + cnt < flat@.len() {
                assert forall|m: int| 0 <= m < spec_chunks(nsuffix, b as int).len() implies
                    #[trigger] chs[r@.len() + m] == spec_chunks(nsuffix, b as int)[m] by {
                    assert(spec_chunks(suffix, b as int)[1 + m] == spec_chunks(
                        nsuffix,
                        b as int,
                    )[m]);
                    assert(chs[old_r.len() + (1 + m)] == spec_chunks(suffix, b as int)[1 + m]);
                };
            } else {
                assert(nsuffix.len() == 0);
                assert(spec_chunks(nsuffix, b as int).len() == 0);
            }
        }
        idx += cnt;
    }
    proof {
        assert(spec_chunks(flat@.subrange(idx as int, flat@.len() as int), b as int).len() == 0);
        assert(groups_view(r) =~= chs);
    }
    r
}

impl Circuit {
    /// The blocks of `r` pack this circuit's gates: `ba`, `bx` and
    /// `bi` are key-sorted, chunked permutations of the AND, XOR and INV
    /// gates, and `r` lists them in that order.
    pub open spec fn spec_pack_witness(
        self,
        r: PackedCircuit,
        ba: Seq<PackedGateInfo<2>>,
        bx: Seq<PackedGateInfo<2>>,
        bi: Seq<PackedGateInfo<1>>,
        b: int,
    ) -> bool {
        let gs = self.spec_gates();
        &&& r.spec_gates() == Seq::new(ba.len(), |i: int| PackedGate::And(ba[i])) + Seq::new(
            bx.len(),
            |i: int| PackedGate::Xor(bx[i]),
        ) + Seq::new(bi.len(), |i: int| PackedGate::Inv(bi[i]))
        &&& packs2(
            spec_fan_counts2(spec_and_infos(gs), self.spec_num_wires()),
            spec_and_infos(gs),
            ba,
            b,
        )
        &&& packs2(
            spec_fan_counts2(spec_xor_infos(gs), self.spec_num_wires()),
            spec_xor_infos(gs),
            bx,
            b,
        )
        &&& packs1(
            spec_fan_counts1(spec_inv_infos(gs), self.spec_num_wires()),
            spec_inv_infos(gs),
            bi,
            b,
        )
    }

    /// Partition the gates by kind, order each kind by the (fan-out, wire)
    /// key of its hottest input wire, and cut the result into blocks of
    /// `gates_per_block`, AND blocks first, then XOR, then INV.  Circuit
    /// inputs and outputs are flattened and chunked the same way.
    pub fn pack(self, gates_per_block: u32) -> (r: PackedCircuit)
        requires
            self.wf(),
            gates_per_block >= 1,
            self.spec_gates().len() <= 0xFFFFFFFFu64,
        ensures
            r.spec_num_wires() == self.spec_num_wires(),
            r.spec_gates_per_block() == gates_per_block,
            r.spec_inputs() == spec_chunks(
                spec_flatten(self.spec_inputs()),
                gates_per_block as int,
            ),
            r.spec_outputs() == spec_chunks(
                spec_flatten(self.spec_outputs()),
                gates_per_block as int,
            ),
            exists|ba: Seq<PackedGateInfo<2>>, bx: Seq<PackedGateInfo<2>>, bi: Seq<
                PackedGateInfo<1>,
            >| self.spec_pack_witness(r, ba, bx, bi, gates_per_block as int),
    {
        let nw = self.num_wires as usize;
        let b = gates_per_block as usize;
        let ghost gs = self.spec_gates();

        // Partition the gates by kind.
        let mut g_and: Vec<GateInfo<2>> = Vec::new();
        let mut g_xor: Vec<GateInfo<2>> = Vec::new();
        let mut g_inv: Vec<GateInfo<1>> = Vec::new();
        let mut i: usize = 0;
        while i < self.gates.len()
            invariant
                self.wf(),
                gs == self.spec_gates(),
                nw == self.spec_num_wires(),
                i <= gs.len(),
                g_and@ == spec_and_infos(gs.subrange(0, i as int)),
                g_xor@ == spec_xor_infos(gs.subrange(0, i as int)),
                g_inv@ == spec_inv_infos(gs.subrange(0, i as int)),
            decreases gs.len() - i,
        {
            let gate = self.gates[i];
            match gate {
                Gate::And(gi) => g_and.push(gi),
                Gate::Xor(gi) => g_xor.push(gi),
                Gate::Inv(gi) => g_inv.push(gi),
            }
            proof {
                assert(gs.subrange(0, i + 1).drop_last() =~= gs.subrange(0, i as int));
                assert(gs.subrange(0, i + 1).last() == gs[i as int]);
            }
            i += 1;
        }
        proof {
            assert(gs.subrange(0, gs.len() as int) =~= gs);
            lemma_kind_infos_wf(gs, self.spec_num_wires());
        }

        // Sort each kind by its hottest input wire and chunk into blocks.
        let counts_a = fan_outs2(&g_and, nw);
        let sorted_a = sort_gates2(&counts_a, &g_and);
        let blocks_a = pack_blocks2(&sorted_a, b);

        let counts_x = fan_outs2(&g_xor, nw);
        let sorted_x = sort_gates2(&counts_x, &g_xor);
        let blocks_x = pack_blocks2(&sorted_x, b);

        let counts_i = fan_outs1(&g_inv, nw);
        let sorted_i = sort_gates1(&counts_i, &g_inv);
        let blocks_i = pack_blocks1(&sorted_i, b);

        proof {
            assert(counts_a@ =~= spec_fan_counts2(spec_and_infos(gs), self.spec_num_wires()));
            assert(counts_x@ =~= spec_fan_counts2(spec_xor_infos(gs), self.spec_num_wires()));
            assert(counts_i@ =~= spec_fan_counts1(spec_inv_infos(gs), self.spec_num_wires()));
        }

        let ghost ba = blocks_a@;
        let ghost bxs = blocks_x@;
        let ghost bis = blocks_i@;
        let mut blocks_a = blocks_a;
        let mut blocks_x = blocks_x;
        let mut blocks_i = blocks_i;

        let mut gates: Vec<PackedGate> = Vec::new();
        let na = blocks_a.len();
        let mut k: usize = 0;
        while k < na
            invariant
                k <= na,
                na == ba.len(),
                blocks_a@ == ba.subrange(k as int, ba.len() as int),
                gates@.len() == k,
                forall|c: int| 0 <= c < k ==> #[trigger] gates@[c] == PackedGate::And(ba[c]),
            decreases na - k,
        {
            let pb = blocks_a.remove(0);
            proof {
                assert(pb == ba[k as int]);
                assert(blocks_a@ =~= ba.subrange(k + 1, ba.len() as int));
            }
            gates.push(PackedGate::And(pb));
            k += 1;
        }
        let nx = blocks_x.len();
        let mut k: usize = 0;
        while k < nx
            invariant
                k <= nx,
                na == ba.len(),
                nx == bxs.len(),
                blocks_x@ == bxs.subrange(k as int, bxs.len() as int),
                gates@.len() == na + k,
                forall|c: int| 0 <= c < na ==> #[trigger] gates@[c] == PackedGate::And(ba[c]),
                forall|c: int|
                    0 <= c < k ==> #[trigger] gates@[na + c] == PackedGate::Xor(bxs[c]),
            decreases nx - k,
        {
            let pb = blocks_x.remove(0);
            proof {
                assert(pb == bxs[k as int]);
                assert(blocks_x@ =~= bxs.subrange(k + 1, bxs.len() as int));
            }
            gates.push(PackedGate::Xor(pb));
            k += 1;
        }
        let ni = blocks_i.len();
        let mut k: usize = 0;
        while k < ni
            invariant
                k <= ni,
                na == ba.len(),
                nx == bxs.len(),
                ni == bis.len(),
                blocks_i@ == bis.subrange(k as int, bis.len() as int),
                gates@.len() == na + nx + k,
                forall|c: int| 0 <= c < na ==> #[trigger] gates@[c] == PackedGate::And(ba[c]),
                forall|c: int|
                    0 <= c < nx ==> #[trigger] gates@[na + c] == PackedGate::Xor(bxs[c]),
                forall|c: int|
                    0 <= c < k ==> #[trigger] gates@[na + nx + c] == PackedGate::Inv(bis[c]),
            decreases ni - k,
        {
            let pb = blocks_i.remove(0);
            proof {
                assert(pb == bis[k as int]);
                assert(blocks_i@ =~= bis.subrange(k + 1, bis.len() as int));
            }
            gates.push(PackedGate::Inv(pb));
            k += 1;
        }

        let flat_in = flatten_groups(&self.inputs);
        let inputs = chunk_wires(&flat_in, b);
        let flat_out = flatten_groups(&self.outputs);
        let outputs = chunk_wires(&flat_out, b);

        let r = PackedCircuit {
            gates,
            inputs,
            outputs,
            num_wires: self.num_wires,
            gates_per_block,
        };
        proof {
            assert(groups_view(self.inputs) =~= self.spec_inputs());
            assert(groups_view(self.outputs) =~= self.spec_outputs());
            let wa = Seq::new(ba.len(), |i: int| PackedGate::And(ba[i]));
            let wx = Seq::new(bxs.len(), |i: int| PackedGate::Xor(bxs[i]));
            let wi = Seq::new(bis.len(), |i: int| PackedGate::Inv(bis[i]));
            assert forall|j: int| 0 <= j < r.spec_gates().len() implies r.spec_gates()[j] == (wa
                + wx + wi)[j] by {
                if j < ba.len() {
                    assert(r.spec_gates()[j] == PackedGate::And(ba[j]));
                } else if j < ba.len() + bxs.len() {
                    assert(r.spec_gates()[ba.len() + (j - ba.len())] == PackedGate::Xor(
                        bxs[j - ba.len()],
                    ));
                } else {
                    assert(r.spec_gates()[ba.len() + bxs.len() + (j - ba.len() - bxs.len())]
                        == PackedGate::Inv(bis[j - ba.len() - bxs.len()]));
                }
            };
            assert(r.spec_gates() =~= wa + wx + wi);
            assert(packs2(counts_a@, spec_and_infos(gs), ba, b as int)) by {
                assert(sorted_a@.to_multiset() == spec_and_infos(gs).to_multiset() && sorted_a@.len()
                    == spec_and_infos(gs).len() && sorted_by2(counts_a@, sorted_a@) && ba.len()
                    == spec_chunks(sorted_a@, b as int).len() && (forall|c: int|
                    0 <= c < ba.len() ==> block_matches2(
                        #[trigger] ba[c],
                        spec_chunks(sorted_a@, b as int)[c],
                    )));
            };
            assert(packs2(counts_x@, spec_xor_infos(gs), bxs, b as int)) by {
                assert(sorted_x@.to_multiset() == spec_xor_infos(gs).to_multiset() && sorted_x@.len()
                    == spec_xor_infos(gs).len() && sorted_by2(counts_x@, sorted_x@) && bxs.len()
                    == spec_chunks(sorted_x@, b as int).len() && (forall|c: int|
                    0 <= c < bxs.len() ==> block_matches2(
                        #[trigger] bxs[c],
                        spec_chunks(sorted_x@, b as int)[c],
                    )));
            };
            assert(packs1(counts_i@, spec_inv_infos(gs), bis, b as int)) by {
                assert(sorted_i@.to_multiset() == spec_inv_infos(gs).to_multiset() && sorted_i@.len()
                    == spec_inv_infos(gs).len() && sorted_by1(counts_i@, sorted_i@) && bis.len()
                    == spec_chunks(sorted_i@, b as int).len() && (forall|c: int|
                    0 <= c < bis.len() ==> block_matches1(
                        #[trigger] bis[c],
                        spec_chunks(sorted_i@, b as int)[c],
                    )));
            };
            assert(self.spec_pack_witness(r, ba, bxs, bis, b as int));
        }
        r
    }
}

/// The fan-out table of two-input gates over `nw` wires.
pub open spec fn spec_fan_counts2(gs: Seq<GateInfo<2>>, nw: int) -> Seq<u64> {
    Seq::new(nw as nat, |w: int| spec_fan_out2(gs, w) as u64)
}

/// The fan-out table of one-input gates over `nw` wires.
pub open spec fn spec_fan_counts1(gs: Seq<GateInfo<1>>, nw: int) -> Seq<u64> {
    Seq::new(nw as nat, |w: int| spec_fan_out1(gs, w) as u64)
}

/// Every filtered gate keeps its wire bounds.
proof fn lemma_kind_infos_wf(gs: Seq<Gate>, nw: int)
    requires
        forall|i: int| 0 <= i < gs.len() ==> (#[trigger] gs[i]).wf(nw),
    ensures
        forall|i: int|
            0 <= i < spec_and_infos(gs).len() ==> (#[trigger] spec_and_infos(gs)[i]).inp@[0] < nw
                && spec_and_infos(gs)[i].inp@[1] < nw,
        forall|i: int|
            0 <= i < spec_xor_infos(gs).len() ==> (#[trigger] spec_xor_infos(gs)[i]).inp@[0] < nw
                && spec_xor_infos(gs)[i].inp@[1] < nw,
        forall|i: int|
            0 <= i < spec_inv_infos(gs).len() ==> (#[trigger] spec_inv_infos(gs)[i]).inp@[0] < nw,
        spec_and_infos(gs).len() <= gs.len(),
        spec_xor_infos(gs).len() <= gs.len(),
        spec_inv_infos(gs).len() <= gs.len(),
    decreases gs.len(),
{
    if gs.len() > 0 {
        lemma_kind_infos_wf(gs.drop_last(), nw);
        assert(gs[gs.len() - 1].wf(nw));
    }
}

impl PackedCircuit {
    /// The packed gate blocks, AND blocks first, then XOR, then INV.
    pub closed spec fn spec_gates(self) -> Seq<PackedGate> {
        self.gates@
    }

    /// The chunked input wires.
    pub closed spec fn spec_inputs(self) -> Seq<Seq<WireID>> {
        groups_view(self.inputs)
    }

    /// The chunked output wires.
    pub closed spec fn spec_outputs(self) -> Seq<Seq<WireID>> {
        groups_view(self.outputs)
    }

    /// The total number of wires.
    pub closed spec fn spec_num_wires(self) -> int {
        self.num_wires as int
    }

    /// The block size the circuit was packed with.
    pub closed spec fn spec_gates_per_block(self) -> u32 {
        self.gates_per_block
    }

    /// The packed gate blocks.
    pub fn gates(&self) -> (r: &Vec<PackedGate>)
        ensures
            r@ == self.spec_gates(),
    {
        &self.gates
    }

    /// The chunked input wires.
    pub fn inputs(&self) -> (r: &Vec<Vec<WireID>>)
        ensures
            r@.len() == self.spec_inputs().len(),
            forall|i: int| 0 <= i < r@.len() ==> (#[trigger] r@[i])@ == self.spec_inputs()[i],
    {
        &self.inputs
    }

    /// The chunked output wires.
    pub fn outputs(&self) -> (r: &Vec<Vec<WireID>>)
        ensures
            r@.len() == self.spec_outputs().len(),
            forall|i: int| 0 <= i < r@.len() ==> (#[trigger] r@[i])@ == self.spec_outputs()[i],
    {
        &self.outputs
    }

    /// The total number of wires.
    pub fn num_wires(&self) -> (r: u32)
        ensures
            r == self.spec_num_wires(),
    {
        self.num_wires
    }

    /// The block size the circuit was packed with.
    pub fn gates_per_block(&self) -> (r: u32)
        ensures
            r == self.spec_gates_per_block(),
    {
        self.gates_per_block
    }

    /// How many AND, XOR and INV blocks the packed circuit holds, in that
    /// order.
    pub fn get_gate_counts(&self) -> (r: (usize, usize, usize))
        ensures
            r.0 == spec_count_and(self.spec_gates()),
            r.1 == spec_count_xor(self.spec_gates()),
            r.2 == spec_count_inv(self.spec_gates()),
    {
        let mut num_and: usize = 0;
        let mut num_xor: usize = 0;
        let mut num_inv: usize = 0;
        let mut i: usize = 0;
        while i < self.gates.len()
            invariant
                i <= self.spec_gates().len(),
                num_and == spec_count_and(self.spec_gates().subrange(0, i as int)),
                num_xor == spec_count_xor(self.spec_gates().subrange(0, i as int)),
                num_inv == spec_count_inv(self.spec_gates().subrange(0, i as int)),
                num_and + num_xor + num_inv == i,
            decreases self.spec_gates().len() - i,
        {
            match &self.gates[i] {
                PackedGate::And(_) => num_and += 1,
                PackedGate::Xor(_) => num_xor += 1,
                PackedGate::Inv(_) => num_inv += 1,
            }
            proof {
                let gs = self.spec_gates();
                assert(gs.subrange(0, i + 1).drop_last() =~= gs.subrange(0, i as int));
                assert(gs.subrange(0, i + 1).last() == gs[i as int]);
            }
            i += 1;
        }
        proof {
            assert(self.spec_gates().subrange(0, self.spec_gates().len() as int)
                =~= self.spec_gates());
        }
        (num_and, num_xor, num_inv)
    }
}

/// The number of whole blocks needed for `len` gates at `b` per block.
pub open spec fn spec_ceil_div(len: int, b: int) -> int {
    if len == 0 {
        0int
    } else {
        (len - 1) / b + 1
    }
}

proof fn lemma_count_kinds(gs: Seq<PackedGate>, na: int, nx: int, ni: int)
    requires
        gs.len() == na + nx + ni,
        0 <= na,
        0 <= nx,
        0 <= ni,
        forall|i: int| 0 <= i < na ==> (#[trigger] gs[i]) is And,
        forall|i: int| na <= i < na + nx ==> (#[trigger] gs[i]) is Xor,
        forall|i: int| na + nx <= i < na + nx + ni ==> (#[trigger] gs[i]) is Inv,
    ensures
        spec_count_and(gs) == na,
        spec_count_xor(gs) == nx,
        spec_count_inv(gs) == ni,
    decreases gs.len(),
{
    if gs.len() > 0 {
        let last = gs[gs.len() - 1];
        if ni > 0 {
            lemma_count_kinds(gs.drop_last(), na, nx, ni - 1);
        } else if nx > 0 {
            lemma_count_kinds(gs.drop_last(), na, nx - 1, 0);
        } else {
            lemma_count_kinds(gs.drop_last(), na - 1, 0, 0);
        }
    }
}

/// After packing, each kind's block count is its gate count divided by the
/// block size and rounded up, so the three block counts together sum to
/// exactly the three rounded-up quotients.
pub proof fn lemma_pack_gate_counts(
    c: Circuit,
    r: PackedCircuit,
    ba: Seq<PackedGateInfo<2>>,
    bx: Seq<PackedGateInfo<2>>,
    bi: Seq<PackedGateInfo<1>>,
    b: int,
)
    requires
        b >= 1,
        c.spec_pack_witness(r, ba, bx, bi, b),
    ensures
        spec_count_and(r.spec_gates()) == spec_ceil_div(spec_and_infos(c.spec_gates()).len() as int, b),
        spec_count_xor(r.spec_gates()) == spec_ceil_div(spec_xor_infos(c.spec_gates()).len() as int, b),
        spec_count_inv(r.spec_gates()) == spec_ceil_div(spec_inv_infos(c.spec_gates()).len() as int, b),
{
    let gs = c.spec_gates();
    let nw = c.spec_num_wires();
    let sa = choose|sorted: Seq<GateInfo<2>>|
        {
            &&& sorted.to_multiset() == spec_and_infos(gs).to_multiset()
            &&& sorted.len() == spec_and_infos(gs).len()
            &&& sorted_by2(spec_fan_counts2(spec_and_infos(gs), nw), sorted)
            &&& ba.len() == spec_chunks(sorted, b).len()
            &&& (forall|cc: int|
                0 <= cc < ba.len() ==> block_matches2(#[trigger] ba[cc], spec_chunks(sorted, b)[cc]))
        };
    lemma_chunks_len(sa, b);
    let sx = choose|sorted: Seq<GateInfo<2>>|
        {
            &&& sorted.to_multiset() == spec_xor_infos(gs).to_multiset()
            &&& sorted.len() == spec_xor_infos(gs).len()
            &&& sorted_by2(spec_fan_counts2(spec_xor_infos(gs), nw), sorted)
            &&& bx.len() == spec_chunks(sorted, b).len()
            &&& (forall|cc: int|
                0 <= cc < bx.len() ==> block_matches2(#[trigger] bx[cc], spec_chunks(sorted, b)[cc]))
        };
    lemma_chunks_len(sx, b);
    let si = choose|sorted: Seq<GateInfo<1>>|
        {
            &&& sorted.to_multiset() == spec_inv_infos(gs).to_multiset()
            &&& sorted.len() == spec_inv_infos(gs).len()
            &&& sorted_by1(spec_fan_counts1(spec_inv_infos(gs), nw), sorted)
            &&& bi.len() == spec_chunks(sorted, b).len()
            &&& (forall|cc: int|
                0 <= cc < bi.len() ==> block_matches1(#[trigger] bi[cc], spec_chunks(sorted, b)[cc]))
        };
    lemma_chunks_len(si, b);
    let pg = r.spec_gates();
    assert forall|i: int| 0 <= i < ba.len() implies (#[trigger] pg[i]) is And by {
        assert(pg[i] == PackedGate::And(ba[i]));
    };
    assert forall|i: int| ba.len() <= i < ba.len() + bx.len() implies (#[trigger] pg[i]) is Xor by {
        assert(pg[i] == PackedGate::Xor(bx[i - ba.len()]));
    };
    assert forall|i: int|
        ba.len() + bx.len() <= i < ba.len() + bx.len() + bi.len() implies (
    #[trigger] pg[i]) is Inv by {
        assert(pg[i] == PackedGate::Inv(bi[i - ba.len() - bx.len()]));
    };
    lemma_count_kinds(pg, ba.len() as int, bx.len() as int, bi.len() as int);
}

/// The number of AND blocks.
pub open spec fn spec_count_and(gs: Seq<PackedGate>) -> int
    decreases gs.len(),
{
    if gs.len() == 0 {
        0
    } else {
        spec_count_and(gs.drop_last()) + (if gs.last() is And {
            1int
        } else {
            0int
        })
    }
}

/// The number of XOR blocks.
pub open spec fn spec_count_xor(gs: Seq<PackedGate>) -> int
    decreases gs.len(),
{
    if gs.len() == 0 {
        0
    } else {
        spec_count_xor(gs.drop_last()) + (if gs.last() is Xor {
            1int
        } else {
            0int
        })
    }
}

/// The number of INV blocks.
pub open spec fn spec_count_inv(gs: Seq<PackedGate>) -> int
    decreases gs.len(),
{
    if gs.len() == 0 {
        0
    } else {
        spec_count_inv(gs.drop_last()) + (if gs.last() is Inv {
            1int
        } else {
            0int
        })
    }
}

} // verus!
