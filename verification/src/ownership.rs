use vstd::prelude::*;
use vstd::string::*;
use std::collections::BTreeSet;

use crate::cfg::{BlockControl, ProvisionalCfg};
use crate::icall::{in_block, lemma_block_count, lemma_blocks_nonempty, InferredFunction, InternalCallInference};
use crate::opcode::Opcode;
use crate::ordered::increasing;
use crate::text::{dec_text, joined, pc_range_text, push_dec, push_pc_range};
use crate::icall::CodeBlock;

verus! {

/// Whether a function candidate returns to its caller or is the code's root.
#[derive(Debug, Clone, Copy, PartialEq, Eq, Structural)]
pub enum FunctionKind {
    Returning,
    Root,
}

/// A function candidate: its entry block and kind.
#[derive(Debug, Clone, Copy, PartialEq, Eq, Structural)]
pub struct FunctionCandidate {
    pub entry: u32,
    pub kind: FunctionKind,
}

/// Why blocks could not be assigned to functions.
#[derive(Debug, Clone, Copy, PartialEq, Eq, Structural)]
pub enum OwnershipError {
    MissingFunctionEntry { pc: u32 },
}

/// Control can go from block `a` to block `b`.
pub open spec fn block_step(controls: Seq<BlockControl>, a: u32, b: u32) -> bool {
    a < controls.len() && controls[a as int].spec_successors().contains(b)
}

/// `p` is a walk along control edges.
pub open spec fn is_block_walk(controls: Seq<BlockControl>, p: Seq<u32>) -> bool {
    &&& p.len() > 0
    &&& forall|t: int| 0 <= t < p.len() - 1 ==> #[trigger] block_step(controls, p[t], p[t + 1])
}

/// Block `to` is reachable from block `from` along control edges.
pub open spec fn block_reachable(controls: Seq<BlockControl>, from: u32, to: u32) -> bool {
    exists|p: Seq<u32>| #[trigger] is_block_walk(controls, p) && p[0] == from && p.last() == to
}

/// How a function kind reads in a listing.
pub open spec fn kind_text(kind: FunctionKind) -> Seq<char> {
    match kind {
        FunctionKind::Returning => "Returning"@,
        FunctionKind::Root => "Root"@,
    }
}

/// The members of `owners` below `n`, in increasing order.
pub open spec fn owner_ids(owners: Set<u32>, n: nat) -> Seq<u32>
    decreases n,
{
    if n == 0 {
        Seq::empty()
    } else {
        owner_ids(owners, (n - 1) as nat) + if owners.contains((n - 1) as u32) {
            seq![(n - 1) as u32]
        } else {
            Seq::empty()
        }
    }
}

/// One function candidate line.
pub open spec fn candidate_text(id: nat, function: FunctionCandidate) -> Seq<char> {
    "    f"@ + dec_text(id) + ": "@ + kind_text(function.kind) + " entry=@"@ + dec_text(
        function.entry as nat,
    ) + "\n"@
}

/// One block line: its range and its owners, if any.
pub open spec fn owned_block_text(id: nat, block: CodeBlock, owners: Seq<u32>) -> Seq<char> {
    "    @"@ + dec_text(id) + " "@ + pc_range_text(block.start_pc, block.end_pc) + if owners.len() == 0 {
        " data\n"@
    } else if owners.len() == 1 {
        " owner=f"@ + dec_text(owners[0] as nat) + "\n"@
    } else {
        " duplicated in"@ + joined(owners.len(), |k: nat| " f"@ + dec_text(owners[k as int] as nat))
            + "\n"@
    }
}

/// The function candidates, then each block with its owners.
pub open spec fn ownership_text(
    functions: Seq<FunctionCandidate>,
    owner_sets: Seq<Set<u32>>,
    blocks: Seq<CodeBlock>,
) -> Seq<char> {
    "functions:\n"@ + joined(functions.len(), |i: nat| candidate_text(i, functions[i as int]))
        + "blocks:\n"@ + joined(
        blocks.len(),
        |b: nat| owned_block_text(b, blocks[b as int], owner_ids(owner_sets[b as int], functions.len())),
    )
}

/// Function candidates and the blocks each one owns.
#[derive(Debug, Clone)]
pub struct Ownership {
    functions: Vec<FunctionCandidate>,
    root: u32,
    owners: Vec<BTreeSet<u32>>,
}

impl Ownership {
    pub closed spec fn function_list(&self) -> Seq<FunctionCandidate> {
        self.functions@
    }

    pub closed spec fn root_id(&self) -> u32 {
        self.root
    }

    pub closed spec fn owner_sets(&self) -> Seq<Set<u32>> {
        self.owners@.map_values(|s: BTreeSet<u32>| s@)
    }

    /// The candidates are the inferred functions (entered at their
    /// `JUMPDEST` block) followed by the root (entered at the first block),
    /// and each block is owned by exactly the candidates that reach it.
    pub open spec fn analyzes(&self, inference: InternalCallInference, cfg: ProvisionalCfg) -> bool {
        let nf = inference.function_list().len();
        let blocks = inference.blocks_spec();
        let nb = blocks.block_list().len();
        &&& self.function_list().len() == nf + 1
        &&& forall|f: int|
            0 <= f < nf ==> #[trigger] blocks.jumpdest_map().contains_key(inference.function_list()[f].entry_pc)
        &&& forall|f: int|
            0 <= f < nf ==> #[trigger] self.function_list()[f] == (FunctionCandidate {
                entry: blocks.jumpdest_map()[inference.function_list()[f].entry_pc],
                kind: FunctionKind::Returning,
            })
        &&& self.function_list()[nf as int] == (FunctionCandidate { entry: 0, kind: FunctionKind::Root })
        &&& self.root_id() == nf
        &&& self.owner_sets().len() == nb
        &&& forall|b: int, f: u32|
            0 <= b < nb ==> (#[trigger] self.owner_sets()[b].contains(f) <==> f <= nf
                && block_reachable(cfg.control_list(), self.function_list()[f as int].entry, b as u32))
    }

    /// The function candidates, then each block of `inference` with its owners.
    pub fn display(&self, inference: &InternalCallInference) -> (r: String)
        requires
            inference.blocks_spec().block_list().len() <= self.owner_sets().len(),
            self.function_list().len() <= u32::MAX,
            forall|b: int, f: u32|
                0 <= b < self.owner_sets().len() && #[trigger] self.owner_sets()[b].contains(f) ==> f
                    < self.function_list().len(),
        ensures
            r@ == ownership_text(
                self.function_list(),
                self.owner_sets(),
                inference.blocks_spec().block_list(),
            ),
    {
        let ghost functions = self.function_list();
        let ghost sets = self.owner_sets();
        let blocks = inference.code_blocks().blocks();
        let mut text = String::new();
        text.append("functions:\n");
        let ghost head = text@;
        let ghost candidates = |i: nat| candidate_text(i, functions[i as int]);
        let mut i: usize = 0;
        while i < self.functions.len()
            invariant
                i <= functions.len(),
                functions == self.function_list(),
                candidates == (|i: nat| candidate_text(i, functions[i as int])),
                text@ == head + joined(i as nat, candidates),
            decreases functions.len() - i,
        {
            let ghost before = text@;
            let function = self.functions[i];
            text.append("    f");
            push_dec(&mut text, i as u64);
            text.append(": ");
            match function.kind {
                FunctionKind::Returning => text.append("Returning"),
                FunctionKind::Root => text.append("Root"),
            }
            text.append(" entry=@");
            push_dec(&mut text, function.entry as u64);
            text.append("\n");
            assert(text@ =~= before + candidates(i as nat));
            i = i + 1;
        }
        let ghost listed = text@;
        text.append("blocks:\n");
        let ghost middle = text@;
        let n = self.functions.len();
        let ghost lines = |b: nat| owned_block_text(b, blocks@[b as int], owner_ids(sets[b as int], n as nat));
        let mut b: usize = 0;
        while b < blocks.len()
            invariant
                b <= blocks@.len(),
                blocks@.len() <= sets.len(),
                n == functions.len(),
                n <= u32::MAX,
                functions == self.function_list(),
                sets == self.owner_sets(),
                lines == (|b: nat| owned_block_text(b, blocks@[b as int], owner_ids(sets[b as int], n as nat))),
                text@ == middle + joined(b as nat, lines),
            decreases blocks@.len() - b,
        {
            let ghost before = text@;
            let owners = &self.owners[b];
            let mut ids: Vec<u32> = Vec::new();
            let mut f: usize = 0;
            while f < n
                invariant
                    f <= n,
                    n <= u32::MAX,
                    owners@ == sets[b as int],
                    ids@ == owner_ids(sets[b as int], f as nat),
                decreases n - f,
            {
                if owners.contains(&(f as u32)) {
                    ids.push(f as u32);
                }
                f = f + 1;
            }
            let block = &blocks[b];
            text.append("    @");
            push_dec(&mut text, b as u64);
            text.append(" ");
            push_pc_range(&mut text, block.start_pc, block.end_pc);
            if ids.len() == 0 {
                text.append(" data\n");
            } else if ids.len() == 1 {
                text.append(" owner=f");
                push_dec(&mut text, ids[0] as u64);
                text.append("\n");
            } else {
                text.append(" duplicated in");
                let ghost start = text@;
                let ghost each = |k: nat| " f"@ + dec_text(ids@[k as int] as nat);
                let mut k: usize = 0;
                while k < ids.len()
                    invariant
                        k <= ids@.len(),
                        each == (|k: nat| " f"@ + dec_text(ids@[k as int] as nat)),
                        text@ == start + joined(k as nat, each),
                    decreases ids@.len() - k,
                {
                    let ghost inner = text@;
                    text.append(" f");
                    push_dec(&mut text, ids[k] as u64);
                    assert(text@ =~= inner + each(k as nat));
                    k = k + 1;
                }
                text.append("\n");
            }
            assert(text@ =~= before + lines(b as nat));
            b = b + 1;
        }
        assert(text@ =~= ownership_text(functions, sets, blocks@));
        text
    }

    pub fn functions(&self) -> (r: &Vec<FunctionCandidate>)
        ensures
            r@ == self.function_list(),
    {
        &self.functions
    }

    pub fn root(&self) -> (r: u32)
        ensures
            r == self.root_id(),
    {
        self.root
    }

    pub fn owners(&self, block: u32) -> (r: &BTreeSet<u32>)
        requires
            block < self.owner_sets().len(),
        ensures
            r@ == self.owner_sets()[block as int],
    {
        &self.owners[block as usize]
    }

    pub fn is_owned_by(&self, block: u32, function: u32) -> (r: bool)
        requires
            block < self.owner_sets().len(),
        ensures
            r == self.owner_sets()[block as int].contains(function),
    {
        self.owners[block as usize].contains(&function)
    }

    /// Some function owns the block.
    pub fn is_code(&self, block: u32) -> (r: bool)
        requires
            block < self.owner_sets().len(),
        ensures
            r == !self.owner_sets()[block as int].is_empty(),
    {
        !self.owners[block as usize].is_empty()
    }
}

/// The first inferred function whose entry is no `JUMPDEST` block.
pub open spec fn first_missing_entry(inference: InternalCallInference, f: int) -> bool {
    &&& 0 <= f < inference.function_list().len()
    &&& !inference.blocks_spec().jumpdest_map().contains_key(inference.function_list()[f].entry_pc)
    &&& forall|g: int|
        0 <= g < f ==> #[trigger] inference.blocks_spec().jumpdest_map().contains_key(
            inference.function_list()[g].entry_pc,
        )
}

pub proof fn lemma_walk_start(controls: Seq<BlockControl>, from: u32)
    ensures
        block_reachable(controls, from, from),
{
    let p = seq![from];
    assert(is_block_walk(controls, p));
}

pub proof fn lemma_walk_extend(controls: Seq<BlockControl>, from: u32, k: u32, m: u32)
    requires
        block_reachable(controls, from, k),
        k < controls.len(),
        controls[k as int].spec_successors().contains(m),
    ensures
        block_reachable(controls, from, m),
{
    let p = choose|p: Seq<u32>| #[trigger] is_block_walk(controls, p) && p[0] == from && p.last() == k;
    assert(is_block_walk(controls, p));
    let q = p.push(m);
    assert forall|t: int| 0 <= t < q.len() - 1 implies #[trigger] block_step(controls, q[t], q[t + 1]) by {
        if t < p.len() - 1 {
            assert(block_step(controls, p[t], p[t + 1]));
        }
    }
    assert(is_block_walk(controls, q));
}

pub proof fn lemma_walk_visited(controls: Seq<BlockControl>, visited: Seq<bool>, p: Seq<u32>, t: int)
    requires
        is_block_walk(controls, p),
        visited.len() == controls.len(),
        0 <= t < p.len(),
        p[0] < controls.len(),
        visited[p[0] as int],
        forall|k: int, m: u32|
            0 <= k < controls.len() && visited[k] && #[trigger] controls[k].spec_successors().contains(m)
                ==> m < controls.len() && visited[m as int],
    ensures
        p[t] < controls.len(),
        visited[p[t] as int],
    decreases t,
{
    if t > 0 {
        let u = t - 1;
        lemma_walk_visited(controls, visited, p, u);
        assert(block_step(controls, p[u], p[u + 1]));
    }
}

/// Assigns each block the function candidates that reach it: the inferred
/// functions, entered at their `JUMPDEST` blocks, and the root, entered at the
/// first block. Fails on the first inferred function whose entry is no
/// `JUMPDEST`.
pub fn analyze_ownership(
    inference: &InternalCallInference,
    cfg: &ProvisionalCfg,
) -> (r: Result<Ownership, OwnershipError>)
    requires
        inference.wf(),
        cfg.built_from(inference.source(), *inference),
    ensures
        r is Err <==> exists|f: int|
            0 <= f < inference.function_list().len()
                && !#[trigger] inference.blocks_spec().jumpdest_map().contains_key(
                inference.function_list()[f].entry_pc,
            ),
        r matches Err(e) ==> exists|f: int|
            #[trigger] first_missing_entry(*inference, f) && e == (OwnershipError::MissingFunctionEntry {
                pc: inference.function_list()[f].entry_pc,
            }),
        r matches Ok(o) ==> o.analyzes(*inference, *cfg),
{
    let ghost ins = inference.source();
    let ghost controls = cfg.control_list();
    let blocks = inference.code_blocks();
    let inferred = inference.functions();
    let ghost jd = blocks.jumpdest_map();
    let ghost nb_spec = blocks.block_list().len();
    proof {
        lemma_jumpdest_values(*inference);
        lemma_blocks_nonempty(ins, inference.call_list(), blocks.block_list());
        lemma_block_count(ins, inference.call_list(), blocks.block_list());
    }
    let mut functions: Vec<FunctionCandidate> = Vec::new();
    let mut f: usize = 0;
    while f < inferred.len()
        invariant
            inference.wf(),
            *blocks == inference.blocks_spec(),
            jd == blocks.jumpdest_map(),
            inferred@ == inference.function_list(),
            f <= inferred@.len(),
            functions@.len() == f,
            forall|g: int| 0 <= g < f ==> #[trigger] jd.contains_key(inferred@[g].entry_pc),
            forall|g: int|
                0 <= g < f ==> #[trigger] functions@[g] == (FunctionCandidate {
                    entry: jd[inferred@[g].entry_pc],
                    kind: FunctionKind::Returning,
                }),
        decreases inferred@.len() - f,
    {
        let entry_pc = inferred[f].entry_pc;
        match blocks.jumpdest_block(entry_pc) {
            Some(entry) => {
                functions.push(FunctionCandidate { entry, kind: FunctionKind::Returning });
            },
            None => {
                proof {
                    assert(first_missing_entry(*inference, f as int));
                }
                return Err(OwnershipError::MissingFunctionEntry { pc: entry_pc });
            },
        }
        f = f + 1;
    }
    proof {
        lemma_entry_count(*inference);
    }
    let root = functions.len() as u32;
    functions.push(FunctionCandidate { entry: 0, kind: FunctionKind::Root });
    let nb = blocks.blocks().len();
    let mut owners: Vec<BTreeSet<u32>> = Vec::new();
    let mut b: usize = 0;
    while b < nb
        invariant
            b <= nb,
            owners@.len() == b,
            forall|k: int| 0 <= k < b ==> (#[trigger] owners@[k])@ == Set::<u32>::empty(),
        decreases nb - b,
    {
        owners.push(BTreeSet::new());
        b = b + 1;
    }
    let nfunctions = functions.len();
    proof {
        assert forall|g: int| 0 <= g < nfunctions implies (#[trigger] functions@[g]).entry < nb by {
            if g < nfunctions - 1 {
                assert(jd.contains_key(inferred@[g].entry_pc));
            }
        }
    }
    let mut function: usize = 0;
    while function < nfunctions
        invariant
            inference.wf(),
            cfg.built_from(ins, *inference),
            controls == cfg.control_list(),
            *blocks == inference.blocks_spec(),
            nb == blocks.block_list().len(),
            nb == controls.len(),
            nb > 0,
            nb <= u32::MAX,
            nfunctions == functions@.len(),
            nfunctions <= u32::MAX + 1,
            forall|g: int| 0 <= g < nfunctions ==> (#[trigger] functions@[g]).entry < nb,
            function <= nfunctions,
            owners@.len() == nb,
            forall|k: int, g: u32|
                0 <= k < nb ==> (#[trigger] owners@[k]@.contains(g) <==> g < function
                    && block_reachable(controls, functions@[g as int].entry, k as u32)),
        decreases nfunctions - function,
    {
        let candidate = functions[function];
        let fid = function as u32;
        let mut worklist: Vec<u32> = vec![candidate.entry];
        let mut visited: Vec<bool> = Vec::new();
        let mut v: usize = 0;
        while v < nb
            invariant
                v <= nb,
                visited@.len() == v,
                forall|k: int| 0 <= k < v ==> !#[trigger] visited@[k],
            decreases nb - v,
        {
            visited.push(false);
            v = v + 1;
        }
        proof {
            lemma_walk_start(controls, candidate.entry);
            assert(worklist@[0] == candidate.entry);
        }
        while worklist.len() > 0
            invariant
                inference.wf(),
                cfg.built_from(ins, *inference),
                controls == cfg.control_list(),
                nb == controls.len(),
                nb <= u32::MAX,
                candidate.entry < nb,
                fid == function,
                function < nfunctions,
                candidate == functions@[function as int],
                visited@.len() == nb,
                owners@.len() == nb,
                forall|k: int, g: u32|
                    0 <= k < nb ==> (#[trigger] owners@[k]@.contains(g) <==> (g < function
                        && block_reachable(controls, functions@[g as int].entry, k as u32)) || (g
                        == fid && visited@[k])),
                forall|k: int| 0 <= k < nb && #[trigger] visited@[k] ==> block_reachable(controls, candidate.entry, k as u32),
                forall|t: int|
                    0 <= t < worklist@.len() ==> #[trigger] worklist@[t] < nb && block_reachable(
                        controls,
                        candidate.entry,
                        worklist@[t],
                    ),
                forall|k: int, m: u32|
                    0 <= k < nb && visited@[k] && #[trigger] controls[k].spec_successors().contains(m)
                        ==> visited@[m as int] || worklist@.contains(m),
                visited@[candidate.entry as int] || worklist@.contains(candidate.entry),
            decreases crate::icall::count_false(visited@), worklist@.len(),
        {
            let ghost wl_old = worklist@;
            let block = worklist.pop().unwrap();
            proof {
                assert(wl_old.last() == block);
                assert forall|y: u32| wl_old.contains(y) && y != block implies #[trigger] worklist@.contains(y) by {
                    let t = choose|t: int| 0 <= t < wl_old.len() && wl_old[t] == y;
                    assert(t < wl_old.len() - 1);
                    assert(worklist@[t] == y);
                }
            }
            if visited[block as usize] {
                continue;
            }
            let ghost visited_before = visited@;
            visited.set(block as usize, true);
            proof {
                crate::icall::lemma_count_false_set(visited_before, block as int);
            }
            let ghost owners_before = owners@;
            owners[block as usize].insert(fid);
            proof {
                assert forall|k: int, g: u32|
                    0 <= k < nb implies (#[trigger] owners@[k]@.contains(g) <==> (g < function
                        && block_reachable(controls, functions@[g as int].entry, k as u32)) || (g
                        == fid && visited@[k])) by {
                    if k != block {
                        assert(owners@[k] == owners_before[k]);
                    }
                }
            }
            let successors = cfg.control(block).successors();
            let ghost mid = worklist@;
            let mut s: usize = 0;
            while s < successors.len()
                invariant
                    cfg.built_from(ins, *inference),
                    controls == cfg.control_list(),
                    nb == controls.len(),
                    block < nb,
                    successors@ == controls[block as int].spec_successors(),
                    s <= successors@.len(),
                    block_reachable(controls, candidate.entry, block),
                    forall|y: u32| mid.contains(y) ==> #[trigger] worklist@.contains(y),
                    forall|t: int|
                        0 <= t < worklist@.len() ==> #[trigger] worklist@[t] < nb && block_reachable(
                            controls,
                            candidate.entry,
                            worklist@[t],
                        ),
                    forall|x: int| 0 <= x < s ==> worklist@.contains(#[trigger] successors@[x]),
                decreases successors@.len() - s,
            {
                let target = successors[s];
                proof {
                    assert(successors@[s as int] == target);
                    assert(controls[block as int].spec_successors().contains(target));
                    lemma_walk_extend(controls, candidate.entry, block, target);
                    crate::icall::lemma_push_contains(worklist@, target);
                }
                worklist.push(target);
                s = s + 1;
            }
            proof {
                assert forall|k: int, m: u32|
                    0 <= k < nb && visited@[k] && #[trigger] controls[k].spec_successors().contains(m)
                        implies visited@[m as int] || worklist@.contains(m) by {
                    if k == block {
                        let x = choose|x: int| 0 <= x < successors@.len() && successors@[x] == m;
                        assert(worklist@.contains(successors@[x]));
                    } else if !visited@[m as int] {
                        assert(visited_before[k]);
                        assert(wl_old.contains(m));
                        assert(mid.contains(m));
                    }
                }
                if !visited@[candidate.entry as int] {
                    assert(wl_old.contains(candidate.entry));
                    assert(mid.contains(candidate.entry));
                }
            }
        }
        proof {
            assert(visited@[candidate.entry as int]);
            assert forall|k: int, m: u32|
                0 <= k < controls.len() && visited@[k] && #[trigger] controls[k].spec_successors().contains(m)
                    implies m < controls.len() && visited@[m as int] by {
                let x = choose|x: int| 0 <= x < controls[k].spec_successors().len() && controls[k].spec_successors()[x] == m;
                assert(controls[k].spec_successors()[x] < nb);
            }
            assert forall|k: int, g: u32|
                0 <= k < nb implies (#[trigger] owners@[k]@.contains(g) <==> g < function + 1
                    && block_reachable(controls, functions@[g as int].entry, k as u32)) by {
                if g == fid && block_reachable(controls, candidate.entry, k as u32) {
                    let p = choose|p: Seq<u32>| #[trigger] is_block_walk(controls, p) && p[0] == candidate.entry
                        && p.last() == k as u32;
                    lemma_walk_visited(controls, visited@, p, p.len() - 1);
                }
            }
        }
        function = function + 1;
    }
    let r = Ownership { functions, root, owners };
    proof {
        assert forall|g: int| 0 <= g < inference.function_list().len() implies #[trigger] r.function_list()[g] == (FunctionCandidate {
            entry: jd[inference.function_list()[g].entry_pc],
            kind: FunctionKind::Returning,
        }) by {}
    }
    Ok(r)
}

/// Every `JUMPDEST` block is a block.
pub proof fn lemma_jumpdest_values(inference: InternalCallInference)
    requires
        inference.wf(),
    ensures
        forall|pc: u32|
            #[trigger] inference.blocks_spec().jumpdest_map().contains_key(pc) ==> inference.blocks_spec().jumpdest_map()[pc]
                < inference.blocks_spec().block_list().len(),
        forall|pc: u32|
            #[trigger] inference.blocks_spec().jumpdest_map().contains_key(pc) ==> pc < u32::MAX,
{
    let ins = inference.source();
    let blocks = inference.blocks_spec();
    assert forall|pc: u32| #[trigger] blocks.jumpdest_map().contains_key(pc) implies blocks.jumpdest_map()[pc]
        < blocks.block_list().len() && pc < u32::MAX by {
        let i = choose|i: int|
            0 <= i < ins.len() && #[trigger] ins[i].pc == pc && ins[i].op == Ok::<Opcode, u8>(
                Opcode::JumpDest,
            );
        assert(blocks.jumpdest_map()[ins[i].pc] == blocks.block_of()[i]);
        assert(in_block(blocks.block_list(), blocks.block_of()[i] as int, i));
    }
}

/// When every inferred entry is a `JUMPDEST`, there are fewer functions than
/// `u32::MAX`.
proof fn lemma_entry_count(inference: InternalCallInference)
    requires
        inference.wf(),
        forall|g: int|
            0 <= g < inference.function_list().len() ==> #[trigger] inference.blocks_spec().jumpdest_map().contains_key(
                inference.function_list()[g].entry_pc,
            ),
    ensures
        inference.function_list().len() <= u32::MAX,
{
    lemma_jumpdest_values(inference);
    let entries = inference.function_list().map_values(|f: InferredFunction| f.entry_pc);
    assert(increasing(entries));
    assert forall|j: int| 0 <= j < entries.len() implies #[trigger] entries[j] < u32::MAX by {
        assert(inference.blocks_spec().jumpdest_map().contains_key(inference.function_list()[j].entry_pc));
    }
    crate::icall::lemma_sorted_len(entries, u32::MAX as int);
}

} // verus!
