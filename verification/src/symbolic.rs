use vstd::prelude::*;

use crate::word::Word;

verus! {

/// A symbolic stack atom: where a stack value may come from.
#[derive(Debug, Clone, Copy, PartialEq, Eq, Structural)]
pub enum SymbolicAtom {
    FunctionInput(u16),
    /// A pushed constant and its value.
    Constant { instruction: u32, value: Word },
    InstructionResult { instruction: u32, output: u8 },
    CallResult { call: u32, output: u16 },
}

/// A symbolic value: the set of atoms it may be, held without repetition.
pub type SymbolicValue = Vec<SymbolicAtom>;

#[derive(Debug, Clone, Copy, PartialEq, Eq, Structural)]
pub struct StackUnderflow;

#[derive(Debug, Clone, Copy, PartialEq, Eq, Structural)]
pub struct StackShapeMismatch {
    pub left_values: usize,
    pub left_next_input: u16,
    pub right_values: usize,
    pub right_next_input: u16,
}

/// The abstract content of a symbolic stack.
pub struct StackModel {
    /// Explicit values, top first.
    pub values: Seq<Seq<SymbolicAtom>>,
    /// Number of function inputs made explicit so far.
    pub next_input: nat,
    /// Number of function inputs the code needs.
    pub required_inputs: nat,
    /// Whether values below the explicit ones are function inputs.
    pub open: bool,
}

/// A symbolic value holding just `atom`.
pub open spec fn single(atom: SymbolicAtom) -> Seq<SymbolicAtom> {
    seq![atom]
}

/// The singleton values `input(from)`, ..., `input(from + k - 1)`.
pub open spec fn input_values(from: nat, k: nat) -> Seq<Seq<SymbolicAtom>> {
    Seq::new(k, |j: int| single(SymbolicAtom::FunctionInput((from + j) as u16)))
}

/// Makes at least `depth` values explicit by drawing function inputs from
/// below the stack; the flag says whether enough values could be drawn.
pub open spec fn materialize_model(st: StackModel, depth: nat) -> (StackModel, bool) {
    if st.values.len() >= depth {
        (st, true)
    } else if !st.open {
        (st, false)
    } else {
        let need = (depth - st.values.len()) as nat;
        let room = (u16::MAX - st.next_input) as nat;
        let k = if need <= room { need } else { room };
        let next = st.next_input + k;
        (
            StackModel {
                values: st.values + input_values(st.next_input, k),
                next_input: next,
                required_inputs: if st.required_inputs >= next { st.required_inputs } else { next },
                open: st.open,
            },
            k == need,
        )
    }
}

/// Drops explicit trailing values that are exactly the last inputs drawn,
/// as if they had never been drawn.
pub open spec fn normalize_model(st: StackModel) -> StackModel
    decreases st.next_input,
{
    if st.open && st.next_input > 0 && st.values.len() > 0 && st.values.last() == single(
        SymbolicAtom::FunctionInput((st.next_input - 1) as u16),
    ) {
        normalize_model(
            StackModel {
                values: st.values.drop_last(),
                next_input: (st.next_input - 1) as nat,
                ..st
            },
        )
    } else {
        st
    }
}

/// A stack model is well formed when values hold no repeated atoms and the
/// required input count covers the drawn inputs.
pub open spec fn model_wf(st: StackModel) -> bool {
    &&& forall|i: int| 0 <= i < st.values.len() ==> (#[trigger] st.values[i]).no_duplicates()
    &&& st.required_inputs >= st.next_input
    &&& st.required_inputs <= u16::MAX
    &&& !st.open ==> st.next_input == 0
}

proof fn lemma_normalize_wf(st: StackModel)
    requires
        model_wf(st),
    ensures
        model_wf(normalize_model(st)),
        normalize_model(st).open == st.open,
        normalize_model(st).required_inputs == st.required_inputs,
        normalize_model(st).next_input <= st.next_input,
        normalize_model(st).values.len() <= st.values.len(),
    decreases st.next_input,
{
    if st.open && st.next_input > 0 && st.values.len() > 0 && st.values.last() == single(
        SymbolicAtom::FunctionInput((st.next_input - 1) as u16),
    ) {
        let smaller = StackModel {
            values: st.values.drop_last(),
            next_input: (st.next_input - 1) as nat,
            ..st
        };
        assert forall|i: int| 0 <= i < smaller.values.len() implies (
        #[trigger] smaller.values[i]).no_duplicates() by {
            assert(smaller.values[i] == st.values[i]);
        }
        lemma_normalize_wf(smaller);
    }
}

/// A stack of symbolic values whose bottom may be open to function inputs.
#[derive(Debug, Clone, PartialEq, Eq)]
pub struct SymbolicStack {
    values: Vec<SymbolicValue>,
    next_input: u16,
    required_inputs: u16,
    open: bool,
}

pub open spec fn views(values: Seq<SymbolicValue>) -> Seq<Seq<SymbolicAtom>> {
    values.map_values(|v: SymbolicValue| v@)
}

/// Whether `atom` is one of the atoms of `value`.
pub fn value_contains(value: &SymbolicValue, atom: SymbolicAtom) -> (r: bool)
    ensures
        r == value@.contains(atom),
{
    let mut i: usize = 0;
    while i < value.len()
        invariant
            i <= value@.len(),
            forall|j: int| 0 <= j < i ==> value@[j] != atom,
        decreases value@.len() - i,
    {
        if value[i] == atom {
            return true;
        }
        i = i + 1;
    }
    false
}

/// Adds the atoms of `right` to `left`; reports whether `left` grew.
pub fn union_into(left: &mut SymbolicValue, right: &SymbolicValue) -> (changed: bool)
    requires
        old(left)@.no_duplicates(),
    ensures
        final(left)@.no_duplicates(),
        final(left)@.to_set() == old(left)@.to_set() + right@.to_set(),
        changed == !right@.to_set().subset_of(old(left)@.to_set()),
        final(left)@.len() >= old(left)@.len(),
{
    let ghost start = left@;
    let mut changed = false;
    let mut i: usize = 0;
    while i < right.len()
        invariant
            i <= right@.len(),
            left@.no_duplicates(),
            left@.len() >= start.len(),
            left@.to_set() == start.to_set() + right@.take(i as int).to_set(),
            changed == !right@.take(i as int).to_set().subset_of(start.to_set()),
        decreases right@.len() - i,
    {
        let atom = right[i];
        let ghost before = left@;
        proof {
            assert(right@.take(i + 1) =~= right@.take(i as int).push(atom));
            right@.take(i as int).lemma_push_to_set_commute(atom);
        }
        if !value_contains(left, atom) {
            left.push(atom);
            changed = true;
            proof {
                before.lemma_push_to_set_commute(atom);
                assert(!before.to_set().contains(atom));
                assert(!start.to_set().contains(atom));
                assert(left@.no_duplicates()) by {
                    assert forall|a: int, b: int|
                        0 <= a < left@.len() && 0 <= b < left@.len() && a != b implies left@[a]
                        != left@[b] by {
                        if a == before.len() {
                            assert(before.contains(left@[b]));
                        } else if b == before.len() {
                            assert(before.contains(left@[a]));
                        }
                    }
                }
            }
        } else {
            proof {
                assert(before.to_set().contains(atom));
            }
        }
        proof {
            assert(left@.to_set() =~= start.to_set() + right@.take(i + 1).to_set());
        }
        i = i + 1;
    }
    proof {
        assert(right@.take(right@.len() as int) =~= right@);
    }
    changed
}

impl SymbolicStack {
    pub closed spec fn model(&self) -> StackModel {
        StackModel {
            values: views(self.values@),
            next_input: self.next_input as nat,
            required_inputs: self.required_inputs as nat,
            open: self.open,
        }
    }

    pub open spec fn wf(&self) -> bool {
        model_wf(self.model())
    }

    /// The stack at the entry of a function that takes inputs.
    pub fn open() -> (r: SymbolicStack)
        ensures
            r.model() == (StackModel {
                values: Seq::empty(),
                next_input: 0,
                required_inputs: 0,
                open: true,
            }),
            r.wf(),
    {
        let r = SymbolicStack { values: Vec::new(), next_input: 0, required_inputs: 0, open: true };
        proof {
            assert(views(r.values@) =~= Seq::<Seq<SymbolicAtom>>::empty());
        }
        r
    }

    /// An empty stack with nothing below it.
    pub fn empty() -> (r: SymbolicStack)
        ensures
            r.model() == (StackModel {
                values: Seq::empty(),
                next_input: 0,
                required_inputs: 0,
                open: false,
            }),
            r.wf(),
    {
        let r = SymbolicStack { values: Vec::new(), next_input: 0, required_inputs: 0, open: false };
        proof {
            assert(views(r.values@) =~= Seq::<Seq<SymbolicAtom>>::empty());
        }
        r
    }

    /// A copy of the stack.
    pub fn duplicate_stack(&self) -> (r: SymbolicStack)
        ensures
            r.model() == self.model(),
    {
        let mut values: Vec<SymbolicValue> = Vec::new();
        let mut i: usize = 0;
        while i < self.values.len()
            invariant
                i <= self.values@.len(),
                views(values@) =~= views(self.values@).take(i as int),
            decreases self.values@.len() - i,
        {
            let copy = self.values[i].clone();
            proof {
                assert(copy@ =~= self.values@[i as int]@);
            }
            let ghost before = values@;
            values.push(copy);
            proof {
                assert(views(values@) =~= views(before).push(copy@));
                assert(views(self.values@).take(i + 1) =~= views(self.values@).take(i as int).push(
                    self.values@[i as int]@,
                ));
            }
            i = i + 1;
        }
        proof {
            assert(views(self.values@).take(i as int) =~= views(self.values@));
        }
        SymbolicStack {
            values,
            next_input: self.next_input,
            required_inputs: self.required_inputs,
            open: self.open,
        }
    }

    /// The explicit values, top first.
    pub fn values_top_first(&self) -> (r: &Vec<SymbolicValue>)
        ensures
            views(r@) == self.model().values,
    {
        &self.values
    }

    pub fn next_input(&self) -> (r: u16)
        ensures
            r == self.model().next_input,
    {
        self.next_input
    }

    pub fn required_inputs(&self) -> (r: u16)
        ensures
            r == self.model().required_inputs,
    {
        self.required_inputs
    }

    pub fn is_open(&self) -> (r: bool)
        ensures
            r == self.model().open,
    {
        self.open
    }

    pub fn push_atom(&mut self, atom: SymbolicAtom)
        requires
            old(self).wf(),
        ensures
            final(self).wf(),
            final(self).model() == (StackModel {
                values: seq![single(atom)] + old(self).model().values,
                ..old(self).model()
            }),
    {
        let mut value: SymbolicValue = Vec::new();
        value.push(atom);
        self.values.insert(0, value);
        proof {
            assert(views(self.values@) =~= seq![single(atom)] + views(old(self).values@));
        }
    }

    pub fn push_value(&mut self, value: SymbolicValue)
        requires
            old(self).wf(),
            value@.no_duplicates(),
        ensures
            final(self).wf(),
            final(self).model() == (StackModel {
                values: seq![value@] + old(self).model().values,
                ..old(self).model()
            }),
    {
        let ghost v = value@;
        self.values.insert(0, value);
        proof {
            assert(views(self.values@) =~= seq![v] + views(old(self).values@));
        }
    }

    /// Makes at least `depth` values explicit, drawing function inputs.
    pub fn materialize(&mut self, depth: usize) -> (r: Result<(), StackUnderflow>)
        requires
            old(self).wf(),
        ensures
            final(self).wf(),
            (final(self).model(), r is Ok) == materialize_model(old(self).model(), depth as nat),
    {
        let ghost start = self.model();
        while self.values.len() < depth
            invariant
                start == old(self).model(),
                model_wf(start),
                self.wf(),
                self.model().open == start.open,
                start.values.len() < depth ==> start.open ==> {
                    let k = (self.model().next_input - start.next_input) as nat;
                    &&& self.model().next_input >= start.next_input
                    &&& self.model().values == start.values + input_values(start.next_input, k)
                    &&& self.model().required_inputs == if start.required_inputs
                        >= self.model().next_input {
                        start.required_inputs
                    } else {
                        self.model().next_input
                    }
                    &&& k <= (depth - start.values.len())
                },
                start.values.len() >= depth ==> self.model() == start,
                !start.open ==> self.model() == start,
            decreases depth - self.values@.len(),
        {
            if !self.open {
                return Err(StackUnderflow);
            }
            let input = self.next_input;
            if self.next_input == u16::MAX {
                proof {
                    let k = (self.model().next_input - start.next_input) as nat;
                    let need = (depth - start.values.len()) as nat;
                    assert(k < need);
                }
                return Err(StackUnderflow);
            }
            self.next_input = self.next_input + 1;
            if self.required_inputs < self.next_input {
                self.required_inputs = self.next_input;
            }
            let mut value: SymbolicValue = Vec::new();
            value.push(SymbolicAtom::FunctionInput(input));
            let ghost before = views(self.values@);
            self.values.push(value);
            proof {
                let k = (self.model().next_input - start.next_input) as nat;
                assert(views(self.values@) =~= before.push(single(SymbolicAtom::FunctionInput(input))));
                assert(input_values(start.next_input, k) =~= input_values(
                    start.next_input,
                    (k - 1) as nat,
                ).push(single(SymbolicAtom::FunctionInput(input))));
                assert(single(SymbolicAtom::FunctionInput(input)).no_duplicates());
                assert forall|i: int| 0 <= i < self.model().values.len() implies (
                #[trigger] self.model().values[i]).no_duplicates() by {
                    if i < before.len() {
                        assert(self.model().values[i] == before[i]);
                    }
                }
            }
        }
        Ok(())
    }

    /// Makes the next function input explicit below the explicit values.
    fn draw_input(&mut self)
        requires
            old(self).wf(),
            old(self).model().open,
            old(self).model().next_input < u16::MAX,
        ensures
            final(self).wf(),
            final(self).model() == (StackModel {
                values: old(self).model().values + input_values(old(self).model().next_input, 1),
                next_input: old(self).model().next_input + 1,
                required_inputs: if old(self).model().required_inputs
                    >= old(self).model().next_input + 1 {
                    old(self).model().required_inputs
                } else {
                    old(self).model().next_input + 1
                },
                open: true,
            }),
    {
        let input = self.next_input;
        self.next_input = self.next_input + 1;
        if self.required_inputs < self.next_input {
            self.required_inputs = self.next_input;
        }
        let mut value: SymbolicValue = Vec::new();
        value.push(SymbolicAtom::FunctionInput(input));
        let ghost before = views(self.values@);
        self.values.push(value);
        proof {
            assert(views(self.values@) =~= before + input_values(input as nat, 1));
            assert(single(SymbolicAtom::FunctionInput(input)).no_duplicates());
            assert forall|i: int| 0 <= i < self.model().values.len() implies (
            #[trigger] self.model().values[i]).no_duplicates() by {
                if i < before.len() {
                    assert(self.model().values[i] == before[i]);
                } else {
                    assert(self.model().values[i] == single(SymbolicAtom::FunctionInput(input)));
                }
            }
        }
    }

    /// Pops the top value, drawing a function input if needed.
    pub fn pop(&mut self) -> (r: Result<SymbolicValue, StackUnderflow>)
        requires
            old(self).wf(),
        ensures
            final(self).wf(),
            ({
                let (st, ok) = materialize_model(old(self).model(), 1);
                &&& r is Ok <==> ok
                &&& r matches Ok(v) ==> v@ == st.values[0] && final(self).model() == (StackModel {
                    values: st.values.drop_first(),
                    ..st
                })
                &&& r is Err ==> final(self).model() == st
            }),
    {
        self.materialize(1)?;
        assert(self.values@.len() == self.model().values.len());
        let ghost before = views(self.values@);
        let value = self.values.remove(0);
        proof {
            assert(views(self.values@) =~= before.drop_first());
            assert forall|i: int| 0 <= i < self.model().values.len() implies (
            #[trigger] self.model().values[i]).no_duplicates() by {
                assert(self.model().values[i] == before[i + 1]);
            }
        }
        Ok(value)
    }

    /// `DUPn`: pushes a copy of the `depth`th value.
    pub fn duplicate(&mut self, depth: u8) -> (r: Result<(), StackUnderflow>)
        requires
            old(self).wf(),
            depth >= 1,
        ensures
            final(self).wf(),
            ({
                let (st, ok) = materialize_model(old(self).model(), depth as nat);
                &&& r is Ok <==> ok
                &&& r is Ok ==> final(self).model() == (StackModel {
                    values: seq![st.values[depth - 1]] + st.values,
                    ..st
                })
                &&& r is Err ==> final(self).model() == st
            }),
    {
        self.materialize(depth as usize)?;
        assert(self.values@.len() == self.model().values.len());
        let copy = self.values[depth as usize - 1].clone();
        proof {
            assert(copy@ =~= self.values@[depth - 1]@);
        }
        let ghost before = views(self.values@);
        self.values.insert(0, copy);
        proof {
            assert(views(self.values@) =~= seq![before[depth - 1]] + before);
            assert forall|i: int| 0 <= i < self.model().values.len() implies (
            #[trigger] self.model().values[i]).no_duplicates() by {
                if i > 0 {
                    assert(self.model().values[i] == before[i - 1]);
                }
            }
        }
        Ok(())
    }

    /// `SWAPn`: exchanges the top value with the one `depth` below it.
    pub fn swap(&mut self, depth: u8) -> (r: Result<(), StackUnderflow>)
        requires
            old(self).wf(),
        ensures
            final(self).wf(),
            ({
                let (st, ok) = materialize_model(old(self).model(), depth as nat + 1);
                &&& r is Ok <==> ok
                &&& r is Ok ==> final(self).model() == (StackModel {
                    values: st.values.update(0, st.values[depth as int]).update(
                        depth as int,
                        st.values[0],
                    ),
                    ..st
                })
                &&& r is Err ==> final(self).model() == st
            }),
    {
        self.materialize(depth as usize + 1)?;
        assert(self.values@.len() == self.model().values.len());
        let ghost before = views(self.values@);
        let d = depth as usize;
        let mut top: SymbolicValue = Vec::new();
        self.values.set_and_swap(0, &mut top);
        let mut deep: SymbolicValue = Vec::new();
        self.values.set_and_swap(d, &mut deep);
        self.values.set(0, deep);
        self.values.set(d, top);
        proof {
            assert(views(self.values@) =~= before.update(0, before[depth as int]).update(
                depth as int,
                before[0],
            ));
            assert forall|i: int| 0 <= i < self.model().values.len() implies (
            #[trigger] self.model().values[i]).no_duplicates() by {
                if i == 0 {
                    assert(self.model().values[i] == before[depth as int]);
                } else if i == depth {
                    assert(self.model().values[i] == before[0]);
                } else {
                    assert(self.model().values[i] == before[i]);
                }
            }
        }
        Ok(())
    }

    /// Forgets explicit bottom values that are just the last drawn inputs.
    pub fn normalize(&mut self)
        requires
            old(self).wf(),
        ensures
            final(self).wf(),
            final(self).model() == normalize_model(old(self).model()),
    {
        proof {
            lemma_normalize_wf(self.model());
        }
        loop
            invariant
                self.wf(),
                normalize_model(self.model()) == normalize_model(old(self).model()),
            ensures
                self.wf(),
                self.model() == normalize_model(old(self).model()),
            decreases self.next_input,
        {
            if !self.open || self.next_input == 0 {
                break;
            }
            let expected = SymbolicAtom::FunctionInput(self.next_input - 1);
            let len = self.values.len();
            if len == 0 {
                break;
            }
            let is_expected = self.values[len - 1].len() == 1 && value_contains(
                &self.values[len - 1],
                expected,
            );
            if !is_expected {
                proof {
                    if self.model().values.last() == single(expected) {
                        assert(self.model().values.last()[0] == expected);
                        assert(self.values@[len - 1]@ == self.model().values.last());
                    }
                }
                break;
            }
            proof {
                let last = self.model().values.last();
                assert(last == self.values@[len - 1]@);
                assert(last =~= single(expected)) by {
                    assert(last.len() == 1);
                    assert(last.contains(expected));
                }
            }
            let ghost before = views(self.values@);
            self.values.pop();
            self.next_input = self.next_input - 1;
            proof {
                assert(views(self.values@) =~= before.drop_last());
                assert forall|i: int| 0 <= i < self.model().values.len() implies (
                #[trigger] self.model().values[i]).no_duplicates() by {
                    assert(self.model().values[i] == before[i]);
                }
            }
        }
    }

    /// Joins `other` into `self` at a control-flow merge point. Both are
    /// normalized first and must have the same shape; then each value
    /// becomes the union of the two. Reports whether `self` gained anything.
    pub fn merge(&mut self, other: &SymbolicStack) -> (r: Result<bool, StackShapeMismatch>)
        requires
            old(self).wf(),
            other.wf(),
        ensures
            final(self).wf(),
            ({
                let left = normalize_model(old(self).model());
                let right = normalize_model(other.model());
                let same_shape = left.open == right.open && left.next_input == right.next_input
                    && left.values.len() == right.values.len();
                &&& !same_shape ==> final(self).model() == old(self).model() && r == Err::<
                    bool,
                    StackShapeMismatch,
                >(
                    StackShapeMismatch {
                        left_values: left.values.len() as usize,
                        left_next_input: left.next_input as u16,
                        right_values: right.values.len() as usize,
                        right_next_input: right.next_input as u16,
                    },
                )
                &&& same_shape ==> {
                    let merged = final(self).model();
                    &&& merged.open == left.open
                    &&& merged.next_input == left.next_input
                    &&& merged.required_inputs == if left.required_inputs
                        >= right.required_inputs {
                        left.required_inputs
                    } else {
                        right.required_inputs
                    }
                    &&& merged.values.len() == left.values.len()
                    &&& forall|i: int|
                        0 <= i < left.values.len() ==> (#[trigger] merged.values[i]).to_set()
                            == left.values[i].to_set() + right.values[i].to_set()
                    &&& r == Ok::<bool, StackShapeMismatch>(
                        right.required_inputs > left.required_inputs || exists|i: int|
                            0 <= i < left.values.len() && !(
                            #[trigger] right.values[i]).to_set().subset_of(
                                left.values[i].to_set(),
                            ),
                    )
                }
            }),
    {
        let mut left = self.duplicate_stack();
        let mut right = other.duplicate_stack();
        left.normalize();
        right.normalize();
        proof {
            lemma_normalize_wf(old(self).model());
            lemma_normalize_wf(other.model());
        }
        if left.open != right.open || left.next_input != right.next_input || left.values.len()
            != right.values.len() {
            return Err(
                StackShapeMismatch {
                    left_values: left.values.len(),
                    left_next_input: left.next_input,
                    right_values: right.values.len(),
                    right_next_input: right.next_input,
                },
            );
        }
        let mut changed = false;
        let required_inputs = if left.required_inputs >= right.required_inputs {
            left.required_inputs
        } else {
            right.required_inputs
        };
        changed = changed || required_inputs != left.required_inputs;
        let ghost lmodel = left.model();
        let ghost rmodel = right.model();
        left.required_inputs = required_inputs;
        let mut i: usize = 0;
        let n = left.values.len();
        while i < n
            invariant
                n == lmodel.values.len() == rmodel.values.len(),
                rmodel == right.model(),
                model_wf(lmodel),
                model_wf(rmodel),
                left.values@.len() == n,
                left.next_input == lmodel.next_input,
                left.open == lmodel.open,
                left.required_inputs == required_inputs,
                required_inputs >= lmodel.required_inputs,
                required_inputs >= rmodel.required_inputs,
                required_inputs == lmodel.required_inputs || required_inputs
                    == rmodel.required_inputs,
                i <= n,
                forall|j: int|
                    0 <= j < i ==> (#[trigger] left.model().values[j]).to_set()
                        == lmodel.values[j].to_set() + rmodel.values[j].to_set(),
                forall|j: int| i <= j < n ==> #[trigger] left.model().values[j] == lmodel.values[j],
                forall|j: int|
                    0 <= j < n ==> (#[trigger] left.model().values[j]).no_duplicates(),
                changed == (rmodel.required_inputs > lmodel.required_inputs || exists|j: int|
                    0 <= j < i && !(#[trigger] rmodel.values[j]).to_set().subset_of(
                        lmodel.values[j].to_set(),
                    )),
            decreases n - i,
        {
            let mut slot: SymbolicValue = Vec::new();
            let ghost before = views(left.values@);
            proof {
                assert(before == left.model().values);
                assert(before[i as int] == lmodel.values[i as int]);
                assert(before[i as int].no_duplicates());
            }
            left.values.set_and_swap(i, &mut slot);
            proof {
                assert(slot@ == before[i as int]);
            }
            let grew = union_into(&mut slot, &right.values[i]);
            left.values.set(i, slot);
            proof {
                assert(left.model().values == before.update(i as int, slot@));
                assert(right.values@[i as int]@ == rmodel.values[i as int]);
                if grew {
                    assert(!rmodel.values[i as int].to_set().subset_of(lmodel.values[i as int].to_set()));
                }
                if exists|j: int|
                    0 <= j < i + 1 && !(#[trigger] rmodel.values[j]).to_set().subset_of(
                        lmodel.values[j].to_set(),
                    ) {
                    let j = choose|j: int|
                        0 <= j < i + 1 && !(#[trigger] rmodel.values[j]).to_set().subset_of(
                            lmodel.values[j].to_set(),
                        );
                    if j < i {
                    } else {
                        assert(grew);
                    }
                }
            }
            changed = changed || grew;
            i = i + 1;
        }
        *self = left;
        Ok(changed)
    }

    /// The explicit values after drawing inputs up to `input_count`, for a
    /// stack whose shape allows it.
    pub fn finite_values(&self, input_count: u16) -> (r: Result<Vec<SymbolicValue>, StackShapeMismatch>)
        requires
            self.wf(),
            self.model().open || input_count <= self.model().next_input,
        ensures
            self.model().next_input > input_count || self.model().required_inputs > input_count
                ==> r == Err::<Vec<SymbolicValue>, StackShapeMismatch>(
                StackShapeMismatch {
                    left_values: self.model().values.len() as usize,
                    left_next_input: self.model().next_input as u16,
                    right_values: input_count as usize,
                    right_next_input: input_count,
                },
            ),
            !(self.model().next_input > input_count || self.model().required_inputs > input_count)
                ==> (r matches Ok(values) && views(values@) == self.model().values + input_values(
                self.model().next_input,
                (input_count - self.model().next_input) as nat,
            )),
    {
        let mut stack = self.duplicate_stack();
        if stack.next_input > input_count || stack.required_inputs > input_count {
            return Err(
                StackShapeMismatch {
                    left_values: stack.values.len(),
                    left_next_input: stack.next_input,
                    right_values: input_count as usize,
                    right_next_input: input_count,
                },
            );
        }
        let ghost start = self.model();
        while stack.next_input < input_count
            invariant
                stack.wf(),
                start == self.model(),
                start.open || input_count <= start.next_input,
                start.required_inputs <= input_count,
                stack.model().open == start.open,
                stack.model().next_input <= input_count,
                stack.model().next_input >= start.next_input,
                stack.model().required_inputs <= input_count,
                stack.model().values == start.values + input_values(
                    start.next_input,
                    (stack.model().next_input - start.next_input) as nat,
                ),
            decreases input_count - stack.next_input,
        {
            let ghost before = stack.model();
            stack.draw_input();
            proof {
                let k = (before.next_input - start.next_input) as nat;
                assert(input_values(start.next_input, k + 1) =~= input_values(start.next_input, k)
                    + input_values(before.next_input, 1));
                assert(stack.model().values =~= start.values + input_values(
                    start.next_input,
                    (stack.model().next_input - start.next_input) as nat,
                ));
            }
        }
        Ok(stack.values)
    }
}

} // verus!
