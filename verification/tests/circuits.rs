use pss::circuit::{Circuit, CircuitError, Gate, PackedGate};

fn xor_circuit() -> Circuit {
    // One XOR gate over a single two-bit input group and a one-bit output.
    let text = b"1 3\n1 2\n1 1\n\n2 1 0 1 2 XOR\n";
    Circuit::from_bristol_fashion(text).unwrap()
}

fn three_gate_circuit() -> Circuit {
    // AND(0,1)->3, XOR(2,3)->4, INV(4)->5 over one three-bit input group.
    let text = b"3 6\n1 3\n1 1\n\n2 1 0 1 3 AND\n2 1 2 3 4 XOR\n1 1 4 5 INV\n";
    Circuit::from_bristol_fashion(text).unwrap()
}

#[test]
fn parse_assigns_wire_groups() {
    let c = xor_circuit();
    assert_eq!(c.num_wires(), 3);
    assert_eq!(c.inputs().len(), 1);
    assert_eq!(c.inputs()[0], vec![0, 1]);
    assert_eq!(c.outputs().len(), 1);
    assert_eq!(c.outputs()[0], vec![2]);
    assert_eq!(c.gates().len(), 1);
    match c.gates()[0] {
        Gate::Xor(gi) => {
            assert_eq!(gi.inp, [0, 1]);
            assert_eq!(gi.out, 2);
        }
        _ => panic!("expected an XOR gate"),
    }
}

#[test]
fn parse_output_groups_from_the_tail() {
    // Two output groups in declared order take the trailing wires.
    let text = b"1 6\n1 2\n2 2 1\n\n2 1 0 1 2 XOR\n";
    let c = Circuit::from_bristol_fashion(text).unwrap();
    assert_eq!(c.outputs().len(), 2);
    assert_eq!(c.outputs()[0], vec![3, 4]);
    assert_eq!(c.outputs()[1], vec![5]);
}

#[test]
fn parse_rejects_malformed_circuits() {
    assert!(matches!(
        Circuit::from_bristol_fashion(b"1 3\n1 2\n"),
        Err(CircuitError::Truncated)
    ));
    assert!(matches!(
        Circuit::from_bristol_fashion(b"1 3\n1 2\n1 1\n\n"),
        Err(CircuitError::Truncated)
    ));
    assert!(matches!(
        Circuit::from_bristol_fashion(b"1 3\n1 2\n1 1\n\n2 1 0 1 2 NAND\n"),
        Err(CircuitError::BadGate)
    ));
    assert!(matches!(
        Circuit::from_bristol_fashion(b"1 3\n1 2\n1 1\n\n1 1 0 1 2 XOR\n"),
        Err(CircuitError::BadGate)
    ));
    assert!(matches!(
        Circuit::from_bristol_fashion(b"1 3\n1 2\n1 1\n\n2 1 0 9 2 XOR\n"),
        Err(CircuitError::WireRange)
    ));
    assert!(matches!(
        Circuit::from_bristol_fashion(b"x 3\n1 2\n1 1\n\n2 1 0 1 2 XOR\n"),
        Err(CircuitError::BadNumber)
    ));
}

#[test]
fn eval_xor_gate() {
    let c = xor_circuit();
    assert_eq!(c.eval(&vec![vec![true, false]]), vec![vec![true]]);
    assert_eq!(c.eval(&vec![vec![true, true]]), vec![vec![false]]);
    assert_eq!(c.eval(&vec![vec![false, false]]), vec![vec![false]]);
}

#[test]
fn eval_matches_reference_truth_table() {
    let c = three_gate_circuit();
    for bits in 0..8u32 {
        let a = bits & 1 != 0;
        let b = bits & 2 != 0;
        let d = bits & 4 != 0;
        let expect = !((a && b) != d);
        let out = c.eval(&vec![vec![a, b, d]]);
        assert_eq!(out, vec![vec![expect]]);
    }
}

#[test]
fn pack_counts_one_block_per_kind() {
    let c = three_gate_circuit();
    let p = c.pack(2);
    assert_eq!(p.gates_per_block(), 2);
    assert_eq!(p.num_wires(), 6);
    assert_eq!(p.get_gate_counts(), (1, 1, 1));
}

#[test]
fn pack_counts_follow_ceiling_formula() {
    // Five XOR gates and two AND gates in a chain.
    let text = b"7 10\n1 3\n1 1\n\n2 1 0 1 3 XOR\n2 1 1 2 4 XOR\n2 1 3 4 5 XOR\n2 1 4 5 6 XOR\n2 1 5 6 7 XOR\n2 1 6 7 8 AND\n2 1 7 8 9 AND\n";
    let c = Circuit::from_bristol_fashion(text).unwrap();
    let num_and = 2usize;
    let num_xor = 5usize;
    let num_inv = 0usize;
    for b in 1..=6u32 {
        let p = Circuit::from_bristol_fashion(text).unwrap().pack(b);
        let (na, nx, ni) = p.get_gate_counts();
        let bb = b as usize;
        assert_eq!(na, num_and.div_ceil(bb));
        assert_eq!(nx, num_xor.div_ceil(bb));
        assert_eq!(ni, num_inv.div_ceil(bb));
        assert_eq!(na + nx + ni, num_and.div_ceil(bb) + num_xor.div_ceil(bb) + num_inv.div_ceil(bb));
    }
    let _ = c;
}

#[test]
fn pack_chunks_inputs_and_outputs() {
    let c = three_gate_circuit();
    let p = c.pack(2);
    // The single three-wire input group is flattened and cut into twos.
    assert_eq!(p.inputs().len(), 2);
    assert_eq!(p.inputs()[0], vec![0, 1]);
    assert_eq!(p.inputs()[1], vec![2]);
    assert_eq!(p.outputs().len(), 1);
    assert_eq!(p.outputs()[0], vec![5]);
}

/// Evaluate a packed circuit block by block on a wire buffer.
fn eval_packed(p: &pss::circuit::PackedCircuit, input_bits: &[bool]) -> Vec<bool> {
    let mut wires = vec![false; p.num_wires() as usize];
    let mut fed = 0usize;
    for block in p.inputs() {
        for &w in block {
            wires[w as usize] = input_bits[fed];
            fed += 1;
        }
    }
    for block in p.gates() {
        match block {
            PackedGate::And(b) => {
                for k in 0..b.out.len() {
                    let v = wires[b.inp[0][k] as usize] && wires[b.inp[1][k] as usize];
                    wires[b.out[k] as usize] = v;
                }
            }
            PackedGate::Xor(b) => {
                for k in 0..b.out.len() {
                    let v = wires[b.inp[0][k] as usize] != wires[b.inp[1][k] as usize];
                    wires[b.out[k] as usize] = v;
                }
            }
            PackedGate::Inv(b) => {
                for k in 0..b.out.len() {
                    let v = !wires[b.inp[0][k] as usize];
                    wires[b.out[k] as usize] = v;
                }
            }
        }
    }
    let mut out = Vec::new();
    for block in p.outputs() {
        for &w in block {
            out.push(wires[w as usize]);
        }
    }
    out
}

#[test]
fn packing_preserves_semantics() {
    // The kinds of this circuit's gates appear in dependency order (AND feeds
    // XOR feeds INV), so block-by-block evaluation matches the flat one.
    for b in 1..=3u32 {
        for bits in 0..8u32 {
            let a = bits & 1 != 0;
            let bb = bits & 2 != 0;
            let d = bits & 4 != 0;
            let c = three_gate_circuit();
            let flat = c.eval(&vec![vec![a, bb, d]]);
            let p = three_gate_circuit().pack(b);
            let packed = eval_packed(&p, &[a, bb, d]);
            assert_eq!(packed, flat.into_iter().flatten().collect::<Vec<bool>>());
        }
    }
}

#[test]
fn eval_with_two_input_groups() {
    // Two input groups of one wire each, AND-ed together.
    let text = b"1 3\n2 1 1\n1 1\n\n2 1 0 1 2 AND\n";
    let c = Circuit::from_bristol_fashion(text).unwrap();
    assert_eq!(c.inputs().len(), 2);
    assert_eq!(c.inputs()[0], vec![0]);
    assert_eq!(c.inputs()[1], vec![1]);
    assert_eq!(c.eval(&vec![vec![true], vec![true]]), vec![vec![true]]);
    assert_eq!(c.eval(&vec![vec![true], vec![false]]), vec![vec![false]]);
}
