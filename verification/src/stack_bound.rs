use vstd::prelude::*;
use vstd::set_lib::{lemma_int_range, lemma_len_subset, lemma_map_size, set_int_range};

use crate::decode::{be_value, Instruction};
use crate::symbolic::{materialize_model, normalize_model, input_values, single, StackModel, SymbolicAtom};
use crate::word::{lemma_word_value_injective, word_value};

verus! {

/// The 32 bytes of the word a `PUSH` instruction pushes: its declared
/// immediate, right-aligned and zero-padded.
pub open spec fn pushed_bytes(instr: Instruction) -> Seq<u8> {
    Seq::new(
        32,
        |k: int|
            if k < 32 - instr.declared_len() {
                0u8
            } else {
                instr.buffer()[k - (32 - instr.declared_len())]
            },
    )
}

/// An atom the analysis of instructions `ins` can produce: any function
/// input, the constant each instruction pushes, and results of instructions.
pub open spec fn admissible_atom(ins: Seq<Instruction>, a: SymbolicAtom) -> bool {
    match a {
        SymbolicAtom::FunctionInput(_) => true,
        SymbolicAtom::Constant { instruction, value } => instruction < ins.len() && word_value(value)
            == be_value(pushed_bytes(ins[instruction as int])),
        SymbolicAtom::InstructionResult { instruction, .. } => instruction < ins.len(),
        SymbolicAtom::CallResult { call, .. } => call < ins.len(),
    }
}

/// Every atom of every value of `st` is admissible.
pub open spec fn model_admissible(ins: Seq<Instruction>, st: StackModel) -> bool {
    forall|i: int, j: int|
        0 <= i < st.values.len() && 0 <= j < st.values[i].len() ==> admissible_atom(
            ins,
            #[trigger] st.values[i][j],
        )
}

/// Number of admissible atoms.
pub open spec fn atom_bound(n: nat) -> nat {
    65536 + 257 * n + 65536 * n
}

/// A numbering of the admissible atoms below `atom_bound`.
pub open spec fn atom_rank(n: nat, a: SymbolicAtom) -> int {
    match a {
        SymbolicAtom::FunctionInput(k) => k as int,
        SymbolicAtom::Constant { instruction, .. } => 65536 + instruction,
        SymbolicAtom::InstructionResult { instruction, output } => 65536 + n + 256 * instruction
            + output,
        SymbolicAtom::CallResult { call, output } => 65536 + 257 * n + 65536 * call + output,
    }
}

proof fn lemma_rank_range(ins: Seq<Instruction>, a: SymbolicAtom)
    requires
        admissible_atom(ins, a),
    ensures
        0 <= atom_rank(ins.len(), a) < atom_bound(ins.len()),
{
    let n = ins.len();
    match a {
        SymbolicAtom::InstructionResult { instruction, output } => {
            assert(256 * instruction + output < 256 * n) by (nonlinear_arith)
                requires
                    instruction < n,
                    output < 256,
            ;
        },
        SymbolicAtom::CallResult { call, output } => {
            assert(65536 * call + output < 65536 * n) by (nonlinear_arith)
                requires
                    call < n,
                    output < 65536,
            ;
        },
        _ => {},
    }
}

proof fn lemma_rank_injective(ins: Seq<Instruction>, a: SymbolicAtom, b: SymbolicAtom)
    requires
        admissible_atom(ins, a),
        admissible_atom(ins, b),
        atom_rank(ins.len(), a) == atom_rank(ins.len(), b),
    ensures
        a == b,
{
    let n = ins.len();
    lemma_rank_range(ins, a);
    lemma_rank_range(ins, b);
    match (a, b) {
        (
            SymbolicAtom::Constant { instruction: i1, value: v1 },
            SymbolicAtom::Constant { instruction: i2, value: v2 },
        ) => {
            lemma_word_value_injective(v1, v2);
        },
        (
            SymbolicAtom::InstructionResult { instruction: i1, output: o1 },
            SymbolicAtom::InstructionResult { instruction: i2, output: o2 },
        ) => {
            assert(i1 == i2 && o1 == o2) by (nonlinear_arith)
                requires
                    256 * i1 + o1 == 256 * i2 + o2,
                    o1 < 256,
                    o2 < 256,
                    i1 >= 0,
                    i2 >= 0,
            ;
        },
        (
            SymbolicAtom::CallResult { call: c1, output: o1 },
            SymbolicAtom::CallResult { call: c2, output: o2 },
        ) => {
            assert(c1 == c2 && o1 == o2) by (nonlinear_arith)
                requires
                    65536 * c1 + o1 == 65536 * c2 + o2,
                    o1 < 65536,
                    o2 < 65536,
                    c1 >= 0,
                    c2 >= 0,
            ;
        },
        (SymbolicAtom::InstructionResult { instruction, output }, _) => {
            assert(256 * instruction + output < 256 * n) by (nonlinear_arith)
                requires
                    instruction < n,
                    output < 256,
            ;
        },
        (_, SymbolicAtom::InstructionResult { instruction, output }) => {
            assert(256 * instruction + output < 256 * n) by (nonlinear_arith)
                requires
                    instruction < n,
                    output < 256,
            ;
        },
        _ => {},
    }
}

/// A value made of admissible atoms has at most `atom_bound` distinct atoms.
pub proof fn lemma_value_size(ins: Seq<Instruction>, v: Seq<SymbolicAtom>)
    requires
        forall|j: int| 0 <= j < v.len() ==> admissible_atom(ins, #[trigger] v[j]),
    ensures
        v.to_set().finite(),
        v.to_set().len() <= atom_bound(ins.len()),
{
    let n = ins.len();
    let s = v.to_set();
    vstd::seq_lib::seq_to_set_is_finite(v);
    let f = |a: SymbolicAtom| atom_rank(n, a);
    assert forall|a: SymbolicAtom, b: SymbolicAtom|
        s.contains(a) && s.contains(b) && #[trigger] f(a) == #[trigger] f(b) implies a == b by {
        let i = choose|i: int| 0 <= i < v.len() && v[i] == a;
        let j = choose|j: int| 0 <= j < v.len() && v[j] == b;
        lemma_rank_injective(ins, v[i], v[j]);
    }
    assert(vstd::relations::injective_on(f, s));
    lemma_map_size(s, s.map(f), f);
    lemma_int_range(0, atom_bound(n) as int);
    assert forall|r: int| s.map(f).contains(r) implies set_int_range(0, atom_bound(n) as int).contains(r) by {
        let a = choose|a: SymbolicAtom| s.contains(a) && f(a) == r;
        let i = choose|i: int| 0 <= i < v.len() && v[i] == a;
        lemma_rank_range(ins, v[i]);
    }
    lemma_len_subset(s.map(f), set_int_range(0, atom_bound(n) as int));
}

/// What one value may still grow by.
pub open spec fn value_room(n: nat, v: Seq<SymbolicAtom>) -> nat {
    if v.to_set().len() <= atom_bound(n) {
        (atom_bound(n) - v.to_set().len()) as nat
    } else {
        0
    }
}

/// What the values of a stack may still grow by.
pub open spec fn values_room(n: nat, values: Seq<Seq<SymbolicAtom>>) -> nat
    decreases values.len(),
{
    if values.len() == 0 {
        0
    } else {
        values_room(n, values.drop_last()) + value_room(n, values.last())
    }
}

/// What a stack may still grow by: its values and its required inputs.
pub open spec fn model_room(n: nat, st: StackModel) -> nat {
    values_room(n, st.values) + if st.required_inputs <= 65535 {
        (65535 - st.required_inputs) as nat
    } else {
        0nat
    }
}

/// What the stacks at the blocks may still grow by.
pub open spec fn states_room(n: nat, states: Seq<Option<StackModel>>) -> nat
    decreases states.len(),
{
    if states.len() == 0 {
        0
    } else {
        states_room(n, states.drop_last()) + match states.last() {
            Some(st) => model_room(n, st),
            None => 0nat,
        }
    }
}

/// Number of blocks without a stack yet.
pub open spec fn none_count(states: Seq<Option<StackModel>>) -> nat
    decreases states.len(),
{
    if states.len() == 0 {
        0
    } else {
        none_count(states.drop_last()) + if states.last() is None {
            1nat
        } else {
            0nat
        }
    }
}

/// Replacing one block's stack changes the total room by the change at it.
pub proof fn lemma_states_room_update(n: nat, states: Seq<Option<StackModel>>, t: int, st: Option<StackModel>)
    requires
        0 <= t < states.len(),
    ensures
        states_room(n, states.update(t, st)) + match states[t] {
            Some(m) => model_room(n, m),
            None => 0nat,
        } == states_room(n, states) + match st {
            Some(m) => model_room(n, m),
            None => 0nat,
        },
        none_count(states.update(t, st)) + (if states[t] is None {
            1nat
        } else {
            0nat
        }) == none_count(states) + if st is None {
            1nat
        } else {
            0nat
        },
    decreases states.len(),
{
    let u = states.update(t, st);
    if t < states.len() - 1 {
        assert(u.drop_last() =~= states.drop_last().update(t, st));
        lemma_states_room_update(n, states.drop_last(), t, st);
    } else {
        assert(u.drop_last() =~= states.drop_last());
    }
}

/// The room of values whose sets grow pointwise does not grow, and shrinks
/// when one set grows strictly.
pub proof fn lemma_values_room_shrinks(
    ins: Seq<Instruction>,
    small: Seq<Seq<SymbolicAtom>>,
    big: Seq<Seq<SymbolicAtom>>,
)
    requires
        small.len() == big.len(),
        forall|i: int| 0 <= i < small.len() ==> small[i].to_set().subset_of(#[trigger] big[i].to_set()),
        forall|i: int, j: int|
            0 <= i < big.len() && 0 <= j < big[i].len() ==> admissible_atom(ins, #[trigger] big[i][j]),
    ensures
        values_room(ins.len(), big) <= values_room(ins.len(), small),
        (exists|i: int| 0 <= i < small.len() && !(#[trigger] big[i].to_set()).subset_of(small[i].to_set()))
            ==> values_room(ins.len(), big) < values_room(ins.len(), small),
    decreases small.len(),
{
    if small.len() > 0 {
        let k = small.len() - 1;
        assert forall|i: int| 0 <= i < small.drop_last().len() implies small.drop_last()[i].to_set().subset_of(
            #[trigger] big.drop_last()[i].to_set(),
        ) by {
            assert(small.drop_last()[i] == small[i]);
            assert(big.drop_last()[i] == big[i]);
        }
        assert forall|i: int, j: int|
            0 <= i < big.drop_last().len() && 0 <= j < big.drop_last()[i].len() implies admissible_atom(
            ins,
            #[trigger] big.drop_last()[i][j],
        ) by {
            assert(big.drop_last()[i] == big[i]);
        }
        lemma_values_room_shrinks(ins, small.drop_last(), big.drop_last());
        assert forall|j: int| 0 <= j < big[k].len() implies admissible_atom(ins, #[trigger] big[k][j]) by {
            assert(admissible_atom(ins, big[k][j]));
        }
        lemma_value_size(ins, big[k]);
        vstd::seq_lib::seq_to_set_is_finite(small[k]);
        lemma_len_subset(small[k].to_set(), big[k].to_set());
        if !big[k].to_set().subset_of(small[k].to_set()) {
            let a = choose|a: SymbolicAtom| big[k].to_set().contains(a) && !small[k].to_set().contains(a);
            assert(small[k].to_set().insert(a).subset_of(big[k].to_set()));
            lemma_len_subset(small[k].to_set().insert(a), big[k].to_set());
        }
        if exists|i: int| 0 <= i < small.len() && !(#[trigger] big[i].to_set()).subset_of(small[i].to_set()) {
            let i = choose|i: int| 0 <= i < small.len() && !(#[trigger] big[i].to_set()).subset_of(small[i].to_set());
            if i < k {
                assert(big.drop_last()[i] == big[i]);
                assert(small.drop_last()[i] == small[i]);
            }
        }
    }
}

/// Dropping trailing values does not add room.
pub proof fn lemma_values_room_prefix(n: nat, values: Seq<Seq<SymbolicAtom>>, k: int)
    requires
        0 <= k <= values.len(),
    ensures
        values_room(n, values.take(k)) <= values_room(n, values),
    decreases values.len(),
{
    if k < values.len() {
        assert(values.drop_last().take(k) =~= values.take(k));
        lemma_values_room_prefix(n, values.drop_last(), k);
    } else {
        assert(values.take(k) =~= values);
    }
}

/// A normalized stack keeps a prefix of the values and the same required
/// inputs.
pub proof fn lemma_normalize_prefix(st: StackModel)
    ensures
        normalize_model(st).values == st.values.take(normalize_model(st).values.len() as int),
        normalize_model(st).values.len() <= st.values.len(),
        normalize_model(st).required_inputs == st.required_inputs,
        normalize_model(st).open == st.open,
    decreases st.next_input,
{
    if st.open && st.next_input > 0 && st.values.len() > 0 && st.values.last() == single(
        SymbolicAtom::FunctionInput((st.next_input - 1) as u16),
    ) {
        let smaller = StackModel {
            values: st.values.drop_last(),
            next_input: (st.next_input - 1) as nat,
            ..st
        };
        lemma_normalize_prefix(smaller);
        let k = normalize_model(st).values.len() as int;
        assert(st.values.drop_last().take(k) =~= st.values.take(k));
    } else {
        assert(st.values.take(st.values.len() as int) =~= st.values);
    }
}

/// Normalizing does not add room, and keeps admissibility.
pub proof fn lemma_normalize_room(ins: Seq<Instruction>, st: StackModel)
    requires
        model_admissible(ins, st),
    ensures
        model_room(ins.len(), normalize_model(st)) <= model_room(ins.len(), st),
        model_admissible(ins, normalize_model(st)),
{
    lemma_normalize_prefix(st);
    let k = normalize_model(st).values.len() as int;
    lemma_values_room_prefix(ins.len(), st.values, k);
    let nv = normalize_model(st).values;
    assert forall|i: int, j: int| 0 <= i < nv.len() && 0 <= j < nv[i].len() implies admissible_atom(
        ins,
        #[trigger] nv[i][j],
    ) by {
        assert(nv[i] == st.values[i]);
    }
}

/// Normalizing twice is normalizing once.
pub proof fn lemma_normalize_twice(st: StackModel)
    ensures
        normalize_model(normalize_model(st)) == normalize_model(st),
    decreases st.next_input,
{
    if st.open && st.next_input > 0 && st.values.len() > 0 && st.values.last() == single(
        SymbolicAtom::FunctionInput((st.next_input - 1) as u16),
    ) {
        let smaller = StackModel {
            values: st.values.drop_last(),
            next_input: (st.next_input - 1) as nat,
            ..st
        };
        lemma_normalize_twice(smaller);
    }
}

/// Drawing inputs keeps admissibility.
pub proof fn lemma_materialize_admissible(ins: Seq<Instruction>, st: StackModel, depth: nat)
    requires
        model_admissible(ins, st),
    ensures
        model_admissible(ins, materialize_model(st, depth).0),
{
    let m = materialize_model(st, depth).0;
    assert forall|i: int, j: int| 0 <= i < m.values.len() && 0 <= j < m.values[i].len() implies admissible_atom(
        ins,
        #[trigger] m.values[i][j],
    ) by {
        if i >= st.values.len() {
            let need = (depth - st.values.len()) as nat;
            let room = (u16::MAX - st.next_input) as nat;
            let k = if need <= room { need } else { room };
            assert(m.values[i] == input_values(st.next_input, k)[i - st.values.len()]);
        }
    }
}

} // verus!
