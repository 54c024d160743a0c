use vstd::prelude::*;

use crate::cfg::{analyzed, flow_ok, jumper_list, successor, successors, ControlFlowGraph};
use crate::error::LowerError;
use crate::instruction::{is_terminator, label_of, GenInstruction};
use crate::needs::{needs_of, BlockNeeds};
use crate::ssa::{same_flow, well_terminated, ArgRegister, BlockId, SSABlock, SSAInstruction, SSAReg, Var, SSA};

verus! {

/// The code of a join block: move each parameter into its shared register, then jump on.
pub open spec fn phantom_code(m: nat, r0: nat, target: BlockId) -> Seq<SSAInstruction> {
    Seq::new(
        m,
        |k: int|
            GenInstruction::Move {
                out: SSAReg { id: (r0 + k) as usize },
                arg: ArgRegister::BParam(k as usize),
            },
    ).push(GenInstruction::Jump { label: target })
}

/// A join block between one predecessor and `target`, for the needed variables `needs`
/// whose shared registers are numbered from `r0`.
pub open spec fn is_phantom(b: SSABlock, needs: Seq<Var>, r0: nat, target: BlockId) -> bool {
    &&& b.parameters@ == needs
    &&& b.instructions@ == phantom_code(needs.len(), r0, target)
    &&& b.populates@ == Seq::new(needs.len(), |k: int| (needs[k], SSAReg { id: (r0 + k) as usize }))
    &&& b.complete
}

/// `i` with a jump to `from` sent to `to` instead.
pub open spec fn retargeted(i: SSAInstruction, from: BlockId, to: BlockId) -> SSAInstruction {
    match i {
        GenInstruction::Jump { label } => if label == from {
            GenInstruction::Jump { label: to }
        } else {
            i
        },
        _ => i,
    }
}

impl SSA {
    /// Sends `jumper`'s final jump to `from` to `to` instead.
    fn retarget_jump(&mut self, jumper: BlockId, from: BlockId, to: BlockId)
        requires
            old(self).has_block(jumper),
        ensures
            old(self).others_unchanged(final(self), jumper),
            final(self).n_registers == old(self).n_registers,
            final(self).variable_registers == old(self).variable_registers,
            final(self).argument_registers == old(self).argument_registers,
            ({
                let b0 = old(self).blocks@[jumper.id as int];
                let b1 = final(self).blocks@[jumper.id as int];
                &&& b1.parameters == b0.parameters
                &&& b1.populates == b0.populates
                &&& b1.complete == b0.complete
                &&& b1.instructions@ == if b0.instructions@.len() > 0 {
                    b0.instructions@.update(
                        b0.instructions@.len() - 1,
                        retargeted(b0.instructions@.last(), from, to),
                    )
                } else {
                    b0.instructions@
                }
            }),
    {
        let data = &mut self.blocks[jumper.id];
        let len = data.instructions.len();
        if len > 0 {
            let last = data.instructions[len - 1];
            let is_from = |l: &BlockId| -> (b: bool)
                ensures
                    b == (*l == from),
                { *l == from };
            data.instructions.set(len - 1, last.replace_jump(is_from, to));
        }
    }

    /// Creates a join block that moves each of `needs` from its parameters into the
    /// registers numbered from `r0`, then jumps to `target`.
    fn make_phantom(&mut self, target: BlockId, needs: &Vec<Var>, r0: usize) -> (r: BlockId)
        requires
            needs@.no_duplicates(),
            r0 + needs@.len() <= usize::MAX,
        ensures
            r.id == old(self).blocks@.len(),
            final(self).blocks@.len() == old(self).blocks@.len() + 1,
            forall|j: int| 0 <= j < old(self).blocks@.len() ==> final(self).blocks@[j] == old(self).blocks@[j],
            is_phantom(final(self).blocks@[r.id as int], needs@, r0 as nat, target),
            final(self).n_registers == old(self).n_registers,
            final(self).argument_registers == old(self).argument_registers,
    {
        let phantom = self.create_block();
        let m = needs.len();
        let mut k: usize = 0;
        while k < m
            invariant
                m == needs@.len(),
                needs@.no_duplicates(),
                r0 + m <= usize::MAX,
                k <= m,
                phantom.id == old(self).blocks@.len(),
                self.blocks@.len() == old(self).blocks@.len() + 1,
                forall|j: int| 0 <= j < old(self).blocks@.len() ==> self.blocks@[j] == old(self).blocks@[j],
                self.n_registers == old(self).n_registers,
                self.argument_registers == old(self).argument_registers,
                ({
                    let b = self.blocks@[phantom.id as int];
                    &&& b.parameters@ == needs@.take(k as int)
                    &&& b.instructions@ == phantom_code(k as nat, r0 as nat, target).drop_last()
                    &&& b.populates@ == Seq::new(
                        k as nat,
                        |i: int| (needs@[i], SSAReg { id: (r0 + i) as usize }),
                    )
                    &&& !b.complete
                }),
            decreases m - k,
        {
            let need = needs[k];
            let write = SSAReg { id: r0 + k };
            proof {
                let b = self.blocks@[phantom.id as int];
                assert(!b.parameters@.contains(need)) by {
                    if b.parameters@.contains(need) {
                        let j = choose|j: int| 0 <= j < k && b.parameters@[j] == need;
                        assert(needs@[j] == needs@[k as int]);
                    }
                }
                assert(!b.bindings().contains_key(need)) by {
                    lemma_bindings_of_distinct(needs@, k as nat, r0 as nat, need);
                }
            }
            let read = self.read_variable(phantom, need);
            self.write_variable_reg(phantom, need, write);
            self.add_instruction(phantom, GenInstruction::Move { out: write, arg: read });
            proof {
                let b = self.blocks@[phantom.id as int];
                assert(b.parameters@ =~= needs@.take(k + 1));
                assert(b.instructions@ =~= phantom_code((k + 1) as nat, r0 as nat, target).drop_last());
                assert(b.populates@ =~= Seq::new(
                    (k + 1) as nat,
                    |i: int| (needs@[i], SSAReg { id: (r0 + i) as usize }),
                ));
            }
            k = k + 1;
        }
        self.add_instruction(phantom, GenInstruction::Jump { label: target });
        proof {
            let b = self.blocks@[phantom.id as int];
            assert(b.parameters@ =~= needs@);
            assert(b.instructions@ =~= phantom_code(m as nat, r0 as nat, target));
        }
        phantom
    }
}

/// A block whose writes are the first `k` of the distinct `needs` binds none of the others.
proof fn lemma_bindings_of_distinct(needs: Seq<Var>, k: nat, r0: nat, v: Var)
    requires
        needs.no_duplicates(),
        k < needs.len(),
        v == needs[k as int],
    ensures
        !crate::ssa::populates_map(
            Seq::new(k, |i: int| (needs[i], SSAReg { id: (r0 + i) as usize })),
        ).contains_key(v),
    decreases k,
{
    if k > 0 {
        let s = Seq::new(k, |i: int| (needs[i], SSAReg { id: (r0 + i) as usize }));
        let s1 = Seq::new((k - 1) as nat, |i: int| (needs[i], SSAReg { id: (r0 + i) as usize }));
        assert(s.drop_last() =~= s1);
        lemma_bindings_of_distinct_below(needs, (k - 1) as nat, r0, v, k);
        assert(needs[k - 1] != v);
    }
}

proof fn lemma_bindings_of_distinct_below(needs: Seq<Var>, j: nat, r0: nat, v: Var, k: nat)
    requires
        needs.no_duplicates(),
        j < k < needs.len(),
        v == needs[k as int],
    ensures
        !crate::ssa::populates_map(
            Seq::new(j, |i: int| (needs[i], SSAReg { id: (r0 + i) as usize })),
        ).contains_key(v),
    decreases j,
{
    if j > 0 {
        let s = Seq::new(j, |i: int| (needs[i], SSAReg { id: (r0 + i) as usize }));
        let s1 = Seq::new((j - 1) as nat, |i: int| (needs[i], SSAReg { id: (r0 + i) as usize }));
        assert(s.drop_last() =~= s1);
        lemma_bindings_of_distinct_below(needs, (j - 1) as nat, r0, v, k);
        assert(needs[j - 1] != v);
    }
}

/// Replacing a block by one that passes control alike keeps the flow well formed.
pub proof fn lemma_flow_ok_same_flow(bs: Seq<SSABlock>, cs: Seq<SSABlock>, i: int)
    requires
        flow_ok(bs),
        0 <= i < bs.len(),
        cs.len() == bs.len(),
        same_flow(bs[i], cs[i]),
        forall|j: int| 0 <= j < bs.len() && j != i ==> cs[j] == bs[j],
    ensures
        flow_ok(cs),
{
    assert forall|j: int| 0 <= j < cs.len() implies well_terminated(#[trigger] cs[j]) && match successor(cs, j) {
        Some(t) => t.id < cs.len(),
        None => true,
    } by {
        assert(well_terminated(bs[j]));
        if j == i {
            let n = bs[i].instructions@.len();
            assert(label_of(cs[i].instructions@[n - 1]) == label_of(bs[i].instructions@[n - 1]));
            assert forall|k: int| 0 <= k < n - 1 implies !is_terminator(#[trigger] cs[i].instructions@[k]) by {
                assert(is_terminator(cs[i].instructions@[k]) == is_terminator(bs[i].instructions@[k]));
            }
            assert(is_terminator(cs[i].instructions@[n - 1]) == is_terminator(bs[i].instructions@[n - 1]));
        }
    }
}

/// Appending a join block keeps the flow well formed.
pub proof fn lemma_flow_ok_phantom(bs: Seq<SSABlock>, cs: Seq<SSABlock>, needs: Seq<Var>, r0: nat, target: BlockId)
    requires
        flow_ok(bs),
        target.id < bs.len(),
        cs.len() == bs.len() + 1,
        forall|j: int| 0 <= j < bs.len() ==> cs[j] == bs[j],
        is_phantom(cs[bs.len() as int], needs, r0, target),
    ensures
        flow_ok(cs),
{
    let p = cs[bs.len() as int];
    let n = p.instructions@.len();
    assert(p.instructions@[n - 1] == (SSAInstruction::Jump { label: target }));
    assert forall|k: int| 0 <= k < n - 1 implies !is_terminator(#[trigger] p.instructions@[k]) by {
        assert(p.instructions@[k] == phantom_code(needs.len(), r0, target)[k]);
    }
    assert forall|j: int| 0 <= j < cs.len() implies well_terminated(#[trigger] cs[j]) && match successor(cs, j) {
        Some(t) => t.id < cs.len(),
        None => true,
    } by {
        if j < bs.len() {
            assert(well_terminated(bs[j]));
            assert(successor(cs, j) == successor(bs, j));
        }
    }
}

/// Sending a block's final jump to an existing block keeps the flow well formed.
pub proof fn lemma_flow_ok_retarget(bs: Seq<SSABlock>, cs: Seq<SSABlock>, i: int, from: BlockId, to: BlockId)
    requires
        flow_ok(bs),
        0 <= i < bs.len(),
        to.id < bs.len(),
        cs.len() == bs.len(),
        forall|j: int| 0 <= j < bs.len() && j != i ==> cs[j] == bs[j],
        cs[i].complete == bs[i].complete,
        cs[i].instructions@ == if bs[i].instructions@.len() > 0 {
            bs[i].instructions@.update(
                bs[i].instructions@.len() - 1,
                retargeted(bs[i].instructions@.last(), from, to),
            )
        } else {
            bs[i].instructions@
        },
    ensures
        flow_ok(cs),
{
    assert(well_terminated(bs[i]));
    let n = bs[i].instructions@.len();
    assert forall|k: int| 0 <= k < n - 1 implies !is_terminator(#[trigger] cs[i].instructions@[k]) by {
        assert(cs[i].instructions@[k] == bs[i].instructions@[k]);
        assert(!is_terminator(bs[i].instructions@[k]));
    }
    assert forall|j: int| 0 <= j < cs.len() implies well_terminated(#[trigger] cs[j]) && match successor(cs, j) {
        Some(t) => t.id < cs.len(),
        None => true,
    } by {
        assert(well_terminated(bs[j]));
    }
}

/// Removing one entry of a sequence without duplicates removes exactly that value.
proof fn lemma_remove_distinct(s: Seq<Var>, k: int)
    requires
        s.no_duplicates(),
        0 <= k < s.len(),
    ensures
        s.remove(k).no_duplicates(),
        forall|w: Var| s.remove(k).contains(w) <==> (s.contains(w) && w != s[k]),
{
    let t = s.remove(k);
    assert forall|w: Var| t.contains(w) <==> (s.contains(w) && w != s[k]) by {
        if t.contains(w) {
            let j = choose|j: int| 0 <= j < t.len() && t[j] == w;
            if j < k {
                assert(s[j] == w);
            } else {
                assert(s[j + 1] == w);
            }
        }
        if s.contains(w) && w != s[k] {
            let j = choose|j: int| 0 <= j < s.len() && s[j] == w;
            if j < k {
                assert(t[j] == w);
            } else {
                assert(j != k);
                assert(t[j - 1] == w);
            }
        }
    }
}

impl SSA {
    /// Puts one join block between each of `jumpers` and `target`, for the variables
    /// `needs`.
    ///
    /// One fresh register per needed variable is shared by all the join blocks: each
    /// moves its incoming value there and jumps to `target`, and each jumper jumps to
    /// its own join block instead of `target`. The needed variables stop being
    /// parameters of `target` and are bound there to the shared registers.
    #[verifier::spinoff_prover]
    pub fn join_block(&mut self, target: BlockId, jumpers: &Vec<BlockId>, needs: &Vec<Var>) -> (r: Vec<BlockId>)
        requires
            old(self).has_block(target),
            forall|i: int| 0 <= i < jumpers@.len() ==> old(self).has_block(#[trigger] jumpers@[i]),
            jumpers@.no_duplicates(),
            needs@.no_duplicates(),
            old(self).blocks@[target.id as int].parameters@.no_duplicates(),
            old(self).n_registers + needs@.len() <= usize::MAX,
        ensures
            flow_ok(old(self).blocks@) ==> flow_ok(final(self).blocks@),
            final(self).argument_registers == old(self).argument_registers,
            !jumpers@.contains(target) ==> same_flow(old(self).blocks@[target.id as int], final(self).blocks@[target.id as int]),
            ({
                let n0 = old(self).blocks@.len();
                let r0 = old(self).n_registers as nat;
                let t0 = old(self).blocks@[target.id as int];
                let t1 = final(self).blocks@[target.id as int];
                &&& final(self).n_registers == r0 + needs@.len()
                &&& final(self).blocks@.len() == n0 + jumpers@.len()
                &&& r@.len() == jumpers@.len()
                &&& forall|i: int| 0 <= i < r@.len() ==> (#[trigger] r@[i]).id == n0 + i
                &&& forall|i: int|
                    0 <= i < r@.len() ==> is_phantom(
                        #[trigger] final(self).blocks@[n0 + i],
                        needs@,
                        r0,
                        target,
                    )
                &&& t1.complete == t0.complete
                &&& forall|v: Var|
                    t1.parameters@.contains(v) <==> t0.parameters@.contains(v) && !needs@.contains(v)
                &&& (forall|v: Var| t0.parameters@.contains(v) ==> needs@.contains(v)) ==> t1.parameters@.len() == 0
                &&& forall|k: int|
                    0 <= k < needs@.len() ==> t1.bindings().contains_key(#[trigger] needs@[k])
                        && t1.bindings()[needs@[k]] == (SSAReg { id: (r0 + k) as usize })
                &&& forall|v: Var|
                    !needs@.contains(v) ==> (t1.bindings().contains_key(v) == t0.bindings().contains_key(v)
                        && (t0.bindings().contains_key(v) ==> t1.bindings()[v] == t0.bindings()[v]))
                &&& forall|i: int|
                    0 <= i < jumpers@.len() && #[trigger] jumpers@[i] != target ==> {
                        let j0 = old(self).blocks@[jumpers@[i].id as int];
                        let j1 = final(self).blocks@[jumpers@[i].id as int];
                        &&& j1.parameters == j0.parameters
                        &&& j1.populates == j0.populates
                        &&& j1.complete == j0.complete
                        &&& j1.instructions@ == if j0.instructions@.len() > 0 {
                            j0.instructions@.update(
                                j0.instructions@.len() - 1,
                                retargeted(j0.instructions@.last(), target, r@[i]),
                            )
                        } else {
                            j0.instructions@
                        }
                    }
                &&& forall|b: int|
                    0 <= b < n0 && b != target.id && !jumpers@.contains(BlockId { id: b as usize })
                        ==> #[trigger] final(self).blocks@[b] == old(self).blocks@[b]
            }),
    {
        let r0 = self.n_registers;
        let m = needs.len();
        let n0 = self.blocks.len();
        // -- one shared register per need --
        let mut k: usize = 0;
        while k < m
            invariant
                self.argument_registers == old(self).argument_registers,
                m == needs@.len(),
                r0 + m <= usize::MAX,
                k <= m,
                self.n_registers == r0 + k,
                self.blocks == old(self).blocks,
            decreases m - k,
        {
            self.create_register(None);
            k = k + 1;
        }
        // -- bind the needs in the target --
        let ghost t0 = old(self).blocks@[target.id as int];
        let mut k: usize = 0;
        while k < m
            invariant
                self.argument_registers == old(self).argument_registers,
                m == needs@.len(),
                needs@.no_duplicates(),
                r0 + m <= usize::MAX,
                k <= m,
                self.n_registers == r0 + m,
                old(self).others_unchanged(self, target),
                flow_ok(old(self).blocks@) ==> flow_ok(self.blocks@),
                t0 == old(self).blocks@[target.id as int],
                target.id < n0,
                n0 == old(self).blocks@.len(),
                same_flow(t0, self.blocks@[target.id as int]),
                self.blocks@[target.id as int].complete == t0.complete,
                self.blocks@[target.id as int].parameters@.no_duplicates(),
                forall|v: Var|
                    self.blocks@[target.id as int].parameters@.contains(v) <==> t0.parameters@.contains(v) && !needs@.take(
                        k as int,
                    ).contains(v),
                forall|j: int|
                    0 <= j < k ==> self.blocks@[target.id as int].bindings().contains_key(#[trigger] needs@[j])
                        && self.blocks@[target.id as int].bindings()[needs@[j]] == (SSAReg { id: (r0 + j) as usize }),
                forall|v: Var|
                    !(#[trigger] needs@.take(k as int).contains(v)) ==> (self.blocks@[target.id as int].bindings().contains_key(v)
                        == t0.bindings().contains_key(v) && (t0.bindings().contains_key(v) ==> self.blocks@[target.id as int].bindings()[v] == t0.bindings()[v])),
            decreases m - k,
        {
            let need = needs[k];
            let ghost t_before = self.blocks@[target.id as int];
            let ghost all_before = self.blocks@;
            proof {
                assert forall|v: Var| t_before.parameters@.contains(v) <==> t0.parameters@.contains(v)
                    && !needs@.take(k as int).contains(v) by {}
                assert forall|v: Var| !needs@.take(k as int).contains(v) implies (t_before.bindings().contains_key(v)
                    == t0.bindings().contains_key(v) && (t0.bindings().contains_key(v) ==> t_before.bindings()[v] == t0.bindings()[v])) by {}
                assert forall|j: int| 0 <= j < k implies t_before.bindings().contains_key(#[trigger] needs@[j])
                    && t_before.bindings()[needs@[j]] == (SSAReg { id: (r0 + j) as usize }) by {}
            }
            self.blocks[target.id].pipe_in_variable(need, SSAReg { id: r0 + k });
            proof {
                if flow_ok(old(self).blocks@) {
                    lemma_flow_ok_same_flow(all_before, self.blocks@, target.id as int);
                }
                let t_after = self.blocks@[target.id as int];
                assert forall|kk: int| 0 <= kk < t0.instructions@.len() implies label_of(#[trigger] t_after.instructions@[kk])
                    == label_of(t0.instructions@[kk]) && is_terminator(t_after.instructions@[kk]) == is_terminator(
                    t0.instructions@[kk],
                ) by {
                    assert(label_of(t_after.instructions@[kk]) == label_of(t_before.instructions@[kk]));
                }
            }
            proof {
                let t1 = self.blocks@[target.id as int];
                let shared = SSAReg { id: (r0 + k) as usize };
                if t_before.parameters@.contains(need) {
                    let kk = choose|kk: int|
                        0 <= kk < t_before.parameters@.len() && t_before.parameters@[kk] == need
                            && (forall|j: int| 0 <= j < kk ==> t_before.parameters@[j] != need)
                            && t1.parameters@ == t_before.parameters@.remove(kk)
                            && t1.instructions@ == t_before.instructions@.map_values(
                            |i: SSAInstruction| crate::ssa::rebind_instruction(i, kk as usize, SSAReg { id: (r0 + k) as usize }),
                        );
                    lemma_remove_distinct(t_before.parameters@, kk);
                    assert(t1.parameters@.no_duplicates());
                    assert(forall|w: Var| t1.parameters@.contains(w) <==> t_before.parameters@.contains(w) && w != need);
                } else {
                    assert(forall|w: Var| t1.parameters@.contains(w) <==> t_before.parameters@.contains(w) && w != need);
                }
                assert forall|v: Var| needs@.take(k + 1).contains(v) <==> (needs@.take(k as int).contains(v) || v == need) by {
                    if needs@.take(k + 1).contains(v) {
                        let j = choose|j: int| 0 <= j < k + 1 && #[trigger] needs@.take(k + 1)[j] == v;
                        if j < k {
                            assert(needs@.take(k as int)[j] == v);
                        }
                    }
                    if needs@.take(k as int).contains(v) {
                        let j = choose|j: int| 0 <= j < k && #[trigger] needs@.take(k as int)[j] == v;
                        assert(needs@.take(k + 1)[j] == v);
                    }
                    if v == need {
                        assert(needs@.take(k + 1)[k as int] == v);
                    }
                }
                assert forall|j: int| 0 <= j < k implies needs@[j] != need by {}
                assert(!needs@.take(k as int).contains(need)) by {
                    if needs@.take(k as int).contains(need) {
                        let j = choose|j: int| 0 <= j < k && #[trigger] needs@.take(k as int)[j] == need;
                        assert(needs@[j] == needs@[k as int]);
                    }
                }
                assert(t1.bindings() == t_before.bindings().insert(need, shared));
                assert forall|v: Var|
                    t1.parameters@.contains(v) <==> t0.parameters@.contains(v) && !needs@.take(k + 1).contains(v) by {
                    assert(t1.parameters@.contains(v) <==> t_before.parameters@.contains(v) && v != need);
                    assert(t_before.parameters@.contains(v) <==> t0.parameters@.contains(v) && !needs@.take(k as int).contains(v));
                    assert(needs@.take(k + 1).contains(v) <==> (needs@.take(k as int).contains(v) || v == need));
                }
                assert forall|j: int| 0 <= j < k + 1 implies t1.bindings().contains_key(#[trigger] needs@[j])
                    && t1.bindings()[needs@[j]] == (SSAReg { id: (r0 + j) as usize }) by {
                    if j == k {
                    } else {
                        assert(needs@[j] != need);
                    }
                }
                assert forall|v: Var| !(#[trigger] needs@.take(k + 1).contains(v)) implies (t1.bindings().contains_key(v)
                    == t0.bindings().contains_key(v) && (t0.bindings().contains_key(v) ==> t1.bindings()[v] == t0.bindings()[v])) by {
                    assert(needs@.take(k + 1).contains(v) <==> (needs@.take(k as int).contains(v) || v == need));
                    assert(v != need);
                    assert(!needs@.take(k as int).contains(v));
                    assert(t_before.bindings().contains_key(v) == t0.bindings().contains_key(v)
                        && (t0.bindings().contains_key(v) ==> t_before.bindings()[v] == t0.bindings()[v]));
                }
            }
            k = k + 1;
        }
        assert(needs@.take(m as int) =~= needs@);
        // -- one join block per jumper --
        let ghost mid = self.blocks@;
        let mut phantoms: Vec<BlockId> = Vec::new();
        let mut i: usize = 0;
        while i < jumpers.len()
            invariant
                self.argument_registers == old(self).argument_registers,
                m == needs@.len(),
                needs@.no_duplicates(),
                r0 + m <= usize::MAX,
                self.n_registers == r0 + m,
                n0 == old(self).blocks@.len(),
                mid.len() == n0,
                target.id < n0,
                forall|j: int| 0 <= j < jumpers@.len() ==> (#[trigger] jumpers@[j]).id < n0,
                jumpers@.no_duplicates(),
                i <= jumpers@.len(),
                self.blocks@.len() == n0 + i,
                flow_ok(old(self).blocks@) ==> flow_ok(self.blocks@),
                phantoms@.len() == i,
                forall|j: int| 0 <= j < i ==> (#[trigger] phantoms@[j]).id == n0 + j,
                forall|j: int|
                    0 <= j < i ==> is_phantom(#[trigger] self.blocks@[n0 + j], needs@, r0 as nat, target),
                !jumpers@.contains(target) ==> self.blocks@[target.id as int] == mid[target.id as int],
                self.blocks@[target.id as int].parameters == mid[target.id as int].parameters,
                self.blocks@[target.id as int].populates == mid[target.id as int].populates,
                self.blocks@[target.id as int].complete == mid[target.id as int].complete,
                forall|j: int|
                    0 <= j < i && #[trigger] jumpers@[j] != target ==> {
                        let j0 = mid[jumpers@[j].id as int];
                        let j1 = self.blocks@[jumpers@[j].id as int];
                        &&& j1.parameters == j0.parameters
                        &&& j1.populates == j0.populates
                        &&& j1.complete == j0.complete
                        &&& j1.instructions@ == if j0.instructions@.len() > 0 {
                            j0.instructions@.update(
                                j0.instructions@.len() - 1,
                                retargeted(j0.instructions@.last(), target, phantoms@[j]),
                            )
                        } else {
                            j0.instructions@
                        }
                    },
                forall|b: int|
                    0 <= b < n0 && b != target.id && !jumpers@.take(i as int).contains(BlockId { id: b as usize })
                        ==> #[trigger] self.blocks@[b] == mid[b],
            decreases jumpers@.len() - i,
        {
            let jumper = jumpers[i];
            let ghost before = self.blocks@;
            let phantom = self.make_phantom(target, needs, r0);
            let ghost with_phantom = self.blocks@;
            self.retarget_jump(jumper, target, phantom);
            proof {
                if flow_ok(old(self).blocks@) {
                    lemma_flow_ok_phantom(before, with_phantom, needs@, r0 as nat, target);
                    lemma_flow_ok_retarget(with_phantom, self.blocks@, jumper.id as int, target, phantom);
                }
            }
            phantoms.push(phantom);
            proof {
                assert forall|b: int|
                    0 <= b < n0 && b != target.id && !jumpers@.take(i + 1).contains(BlockId { id: b as usize })
                        implies #[trigger] self.blocks@[b] == mid[b] by {
                    assert(jumpers@.take(i + 1)[i as int] == jumper);
                    if jumpers@.take(i as int).contains(BlockId { id: b as usize }) {
                        let j = choose|j: int| 0 <= j < i && #[trigger] jumpers@.take(i as int)[j] == BlockId { id: b as usize };
                        assert(jumpers@.take(i + 1)[j] == BlockId { id: b as usize });
                    }
                }
                assert forall|j: int|
                    0 <= j < i + 1 && #[trigger] jumpers@[j] != target implies {
                        let j0 = mid[jumpers@[j].id as int];
                        let j1 = self.blocks@[jumpers@[j].id as int];
                        &&& j1.parameters == j0.parameters
                        &&& j1.populates == j0.populates
                        &&& j1.complete == j0.complete
                        &&& j1.instructions@ == if j0.instructions@.len() > 0 {
                            j0.instructions@.update(
                                j0.instructions@.len() - 1,
                                retargeted(j0.instructions@.last(), target, phantoms@[j]),
                            )
                        } else {
                            j0.instructions@
                        }
                    } by {
                    if j == i {
                        assert(!jumpers@.take(i as int).contains(jumper)) by {
                            if jumpers@.take(i as int).contains(jumper) {
                                let jj = choose|jj: int| 0 <= jj < i && #[trigger] jumpers@.take(i as int)[jj] == jumper;
                                assert(jumpers@[jj] == jumpers@[i as int]);
                            }
                        }
                        assert(before[jumper.id as int] == mid[jumper.id as int]);
                    } else {
                        assert(jumpers@[j] != jumper);
                    }
                }
            }
            i = i + 1;
        }
        proof {
            assert(jumpers@.take(jumpers@.len() as int) =~= jumpers@);
            assert forall|ii: int| 0 <= ii < jumpers@.len() && #[trigger] jumpers@[ii] != target implies
                mid[jumpers@[ii].id as int] == old(self).blocks@[jumpers@[ii].id as int] by {}
            let t1 = self.blocks@[target.id as int];
            if (forall|v: Var| t0.parameters@.contains(v) ==> needs@.contains(v)) && t1.parameters@.len() > 0 {
                let x = t1.parameters@[0];
                assert(t1.parameters@.contains(x));
                assert(mid[target.id as int].parameters@.contains(x));
                assert(t0.parameters@.contains(x));
                assert(needs@.contains(x));
                assert(!needs@.take(m as int).contains(x));
            }
        }
        phantoms
    }
}

/// A block that gets join blocks: it has needs and more than one jumper.
pub open spec fn is_join_target(cfg: ControlFlowGraph, needs: BlockNeeds, t: int) -> bool {
    &&& needs.block_needs@[t]@.len() > 0
    &&& exists|p1: int, p2: int|
        0 <= p1 < p2 < cfg.block_jumps_to@.len() && #[trigger] cfg.block_jumps_to@[p1] == Some(
            BlockId { id: t as usize },
        ) && #[trigger] cfg.block_jumps_to@[p2] == Some(BlockId { id: t as usize })
}

/// Whether some variable occurs twice.
fn has_duplicates(v: &Vec<Var>) -> (r: bool)
    ensures
        r == !v@.no_duplicates(),
{
    let n = v.len();
    let mut i: usize = 0;
    while i < n
        invariant
            n == v@.len(),
            i <= n,
            forall|a: int, b: int| 0 <= a < i && a < b < n ==> v@[a] != v@[b],
        decreases n - i,
    {
        let mut j: usize = i + 1;
        while j < n
            invariant
                n == v@.len(),
                i < n,
                i + 1 <= j <= n,
                forall|a: int, b: int| 0 <= a < i && a < b < n ==> v@[a] != v@[b],
                forall|b: int| i < b < j ==> v@[i as int] != v@[b],
            decreases n - j,
        {
            if v[i] == v[j] {
                return true;
            }
            j = j + 1;
        }
        i = i + 1;
    }
    false
}

/// Registers the join blocks of the first `i` blocks of the traversal order need.
pub open spec fn join_registers(cfg: ControlFlowGraph, needs: BlockNeeds, i: nat) -> nat
    decreases i,
{
    if i == 0 {
        0
    } else {
        join_registers(cfg, needs, (i - 1) as nat) + if is_join_target(
            cfg,
            needs,
            cfg.approximate_toposort@[i - 1].id as int,
        ) {
            needs.block_needs@[cfg.approximate_toposort@[i - 1].id as int]@.len()
        } else {
            0
        }
    }
}

proof fn lemma_join_registers_grow(cfg: ControlFlowGraph, needs: BlockNeeds, i: nat, j: nat)
    requires
        i <= j,
    ensures
        join_registers(cfg, needs, i) <= join_registers(cfg, needs, j),
    decreases j - i,
{
    if i < j {
        lemma_join_registers_grow(cfg, needs, i, (j - 1) as nat);
    }
}

/// The blocks whose final jump goes to block `t`, in increasing order.
pub open spec fn join_jumpers(cfg: ControlFlowGraph, t: int) -> Seq<BlockId> {
    jumper_list(cfg.block_jumps_to@, BlockId { id: t as usize }, cfg.block_jumps_to@.len())
}

/// Join blocks made for the first `i` blocks of the traversal order.
pub open spec fn join_blocks(cfg: ControlFlowGraph, needs: BlockNeeds, i: nat) -> nat
    decreases i,
{
    if i == 0 {
        0
    } else {
        join_blocks(cfg, needs, (i - 1) as nat) + if is_join_target(
            cfg,
            needs,
            cfg.approximate_toposort@[i - 1].id as int,
        ) {
            join_jumpers(cfg, cfg.approximate_toposort@[i - 1].id as int).len()
        } else {
            0
        }
    }
}

/// The join target at position `i` of the traversal order, as join insertion leaves it:
/// its `q`-th jumper jumps to the `q`-th of its join blocks, which are numbered from
/// `n0` plus the join blocks made before it, and which move into the shared registers
/// numbered from `r0` plus the registers used before it.
pub open spec fn joined_at(blocks: Seq<SSABlock>, cfg: ControlFlowGraph, needs: BlockNeeds, n0: nat, r0: nat, i: int) -> bool {
    let t = cfg.approximate_toposort@[i];
    let js = join_jumpers(cfg, t.id as int);
    let pb = n0 + join_blocks(cfg, needs, i as nat);
    let rb = r0 + join_registers(cfg, needs, i as nat);
    &&& forall|q: int|
        0 <= q < js.len() ==> is_phantom(#[trigger] blocks[pb + q], needs.block_needs@[t.id as int]@, rb, t)
    &&& forall|q: int|
        0 <= q < js.len() && #[trigger] js[q] != t ==> blocks[js[q].id as int].instructions@.len() > 0
            && blocks[js[q].id as int].instructions@.last() == (SSAInstruction::Jump {
            label: BlockId { id: (pb + q) as usize },
        })
}

pub proof fn lemma_same_flow_trans(a: SSABlock, b: SSABlock, c: SSABlock)
    requires
        same_flow(a, b),
        same_flow(b, c),
    ensures
        same_flow(a, c),
{
    assert forall|k: int| 0 <= k < a.instructions@.len() implies label_of(#[trigger] c.instructions@[k]) == label_of(
        a.instructions@[k],
    ) && is_terminator(c.instructions@[k]) == is_terminator(a.instructions@[k]) by {
        assert(label_of(c.instructions@[k]) == label_of(b.instructions@[k]));
    }
}

proof fn lemma_join_blocks_grow(cfg: ControlFlowGraph, needs: BlockNeeds, i: nat, j: nat)
    requires
        i <= j,
    ensures
        join_blocks(cfg, needs, i) <= join_blocks(cfg, needs, j),
    decreases j - i,
{
    if i < j {
        lemma_join_blocks_grow(cfg, needs, i, (j - 1) as nat);
    }
}

/// One join insertion keeps what join insertion promised for the targets before it, and
/// gives the same for its own target.
proof fn lemma_join_step(
    orig: Seq<SSABlock>,
    before: Seq<SSABlock>,
    after: Seq<SSABlock>,
    cfg: ControlFlowGraph,
    needs: BlockNeeds,
    n0: nat,
    r0: nat,
    i: int,
    js: Seq<BlockId>,
    ph: Seq<BlockId>,
)
    requires
        analyzed(orig, cfg),
        flow_ok(orig),
        n0 == orig.len(),
        n0 <= usize::MAX,
        0 <= i < cfg.approximate_toposort@.len(),
        is_join_target(cfg, needs, cfg.approximate_toposort@[i].id as int),
        js == join_jumpers(cfg, cfg.approximate_toposort@[i].id as int),
        forall|q: int| 0 <= q < js.len() ==> (#[trigger] js[q]).id < n0,
        forall|p: int|
            0 <= p < n0 ==> (js.contains(BlockId { id: p as usize }) <==> #[trigger] cfg.block_jumps_to@[p]
                == Some(cfg.approximate_toposort@[i])),
        before.len() == n0 + join_blocks(cfg, needs, i as nat),
        forall|j: int|
            0 <= j < i && is_join_target(cfg, needs, #[trigger] cfg.approximate_toposort@[j].id as int) ==> joined_at(
                before,
                cfg,
                needs,
                n0,
                r0,
                j,
            ),
        forall|b: int|
            0 <= b < n0 && (forall|j: int|
                0 <= j < i && is_join_target(cfg, needs, #[trigger] cfg.approximate_toposort@[j].id as int)
                    ==> cfg.block_jumps_to@[b] != Some(cfg.approximate_toposort@[j])) ==> same_flow(orig[b], #[trigger] before[b]),
        ({
            let t = cfg.approximate_toposort@[i];
            let n1 = before.len();
            let r1 = r0 + join_registers(cfg, needs, i as nat);
            &&& after.len() == n1 + js.len()
            &&& ph.len() == js.len()
            &&& forall|q: int| 0 <= q < ph.len() ==> (#[trigger] ph[q]).id == n1 + q
            &&& forall|q: int|
                0 <= q < ph.len() ==> is_phantom(#[trigger] after[n1 + q], needs.block_needs@[t.id as int]@, r1, t)
            &&& !js.contains(t) ==> same_flow(before[t.id as int], after[t.id as int])
            &&& forall|q: int|
                0 <= q < js.len() && #[trigger] js[q] != t ==> {
                    let j0 = before[js[q].id as int];
                    let j1 = after[js[q].id as int];
                    j1.instructions@ == if j0.instructions@.len() > 0 {
                        j0.instructions@.update(
                            j0.instructions@.len() - 1,
                            retargeted(j0.instructions@.last(), t, ph[q]),
                        )
                    } else {
                        j0.instructions@
                    }
                }
            &&& forall|b: int|
                0 <= b < n1 && b != t.id && !js.contains(BlockId { id: b as usize }) ==> #[trigger] after[b] == before[b]
        }),
    ensures
        after.len() == n0 + join_blocks(cfg, needs, (i + 1) as nat),
        forall|j: int|
            0 <= j < i + 1 && is_join_target(cfg, needs, #[trigger] cfg.approximate_toposort@[j].id as int) ==> joined_at(
                after,
                cfg,
                needs,
                n0,
                r0,
                j,
            ),
        forall|b: int|
            0 <= b < n0 && (forall|j: int|
                0 <= j < i + 1 && is_join_target(cfg, needs, #[trigger] cfg.approximate_toposort@[j].id as int)
                    ==> cfg.block_jumps_to@[b] != Some(cfg.approximate_toposort@[j])) ==> same_flow(orig[b], #[trigger] after[b]),
{
    let order = cfg.approximate_toposort@;
    let t = order[i];
    let n1 = before.len();
    assert(t.id < n0);
    // -- blocks not touched by this step --
    assert forall|b: int|
        0 <= b < n0 && (forall|j: int|
            0 <= j < i + 1 && is_join_target(cfg, needs, #[trigger] order[j].id as int)
                ==> cfg.block_jumps_to@[b] != Some(order[j])) implies same_flow(orig[b], #[trigger] after[b]) by {
        assert(cfg.block_jumps_to@[b] != Some(order[i]));
        assert(!js.contains(BlockId { id: b as usize }));
        assert(same_flow(orig[b], before[b]));
        if b == t.id {
            if js.contains(t) {
                assert(js.contains(BlockId { id: b as usize }));
            }
            lemma_same_flow_trans(orig[b], before[b], after[b]);
        } else {
            assert(after[b] == before[b]);
        }
    }
    assert forall|j: int|
        0 <= j < i + 1 && is_join_target(cfg, needs, #[trigger] order[j].id as int) implies joined_at(
            after,
            cfg,
            needs,
            n0,
            r0,
            j,
        ) by {
        let tj = order[j];
        let jsj = join_jumpers(cfg, tj.id as int);
        let pb = n0 + join_blocks(cfg, needs, j as nat);
        let rb = r0 + join_registers(cfg, needs, j as nat);
        if j < i {
            assert(joined_at(before, cfg, needs, n0, r0, j));
            lemma_join_blocks_grow(cfg, needs, (j + 1) as nat, i as nat);
            assert(tj != t);
            assert forall|q: int| 0 <= q < jsj.len() implies is_phantom(
                #[trigger] after[pb + q],
                needs.block_needs@[tj.id as int]@,
                rb,
                tj,
            ) by {
                assert(pb + q < n1);
                assert(!js.contains(BlockId { id: (pb + q) as usize })) by {
                    if js.contains(BlockId { id: (pb + q) as usize }) {
                        let k = choose|k: int| 0 <= k < js.len() && js[k] == BlockId { id: (pb + q) as usize };
                        assert(js[k].id < n0);
                    }
                }
                assert(after[pb + q] == before[pb + q]);
            }
            assert forall|q: int| 0 <= q < jsj.len() && #[trigger] jsj[q] != tj implies after[jsj[q].id as int].instructions@.len()
                > 0 && after[jsj[q].id as int].instructions@.last() == (SSAInstruction::Jump {
                label: BlockId { id: (pb + q) as usize },
            }) by {
                let p = jsj[q];
                crate::cfg::lemma_jumper_list_member(cfg.block_jumps_to@, tj, cfg.block_jumps_to@.len(), q);
                assert(cfg.block_jumps_to@[p.id as int] == Some(tj));
                assert(!js.contains(p)) by {
                    if js.contains(p) {
                        assert(cfg.block_jumps_to@[p.id as int] == Some(t));
                    }
                }
                if p == t {
                    assert(!js.contains(t));
                    let bi = before[p.id as int].instructions@;
                    let ai = after[p.id as int].instructions@;
                    assert(label_of(ai[ai.len() - 1]) == label_of(bi[bi.len() - 1]));
                } else {
                    assert(after[p.id as int] == before[p.id as int]);
                }
            }
        } else {
            assert(j == i);
            assert forall|q: int| 0 <= q < jsj.len() implies is_phantom(
                #[trigger] after[pb + q],
                needs.block_needs@[tj.id as int]@,
                rb,
                tj,
            ) by {
                assert(ph[q].id == n1 + q);
            }
            assert forall|q: int| 0 <= q < jsj.len() && #[trigger] jsj[q] != tj implies after[jsj[q].id as int].instructions@.len()
                > 0 && after[jsj[q].id as int].instructions@.last() == (SSAInstruction::Jump {
                label: BlockId { id: (pb + q) as usize },
            }) by {
                let p = jsj[q];
                crate::cfg::lemma_jumper_list_member(cfg.block_jumps_to@, tj, cfg.block_jumps_to@.len(), q);
                assert(cfg.block_jumps_to@[p.id as int] == Some(t));
                assert forall|jj: int|
                    0 <= jj < i && is_join_target(cfg, needs, #[trigger] order[jj].id as int)
                        implies cfg.block_jumps_to@[p.id as int] != Some(order[jj]) by {
                    assert(order[jj] != order[i]);
                }
                assert(same_flow(orig[p.id as int], before[p.id as int]));
                assert(well_terminated(orig[p.id as int]));
                assert(successors(orig)[p.id as int] == successor(orig, p.id as int));
                let oi = orig[p.id as int].instructions@;
                let bi = before[p.id as int].instructions@;
                assert(label_of(bi[bi.len() - 1]) == label_of(oi[oi.len() - 1]));
                assert(bi.last() == (SSAInstruction::Jump { label: t }));
                assert(ph[q].id == n1 + q);
            }
        }
    }
}

/// Join insertion can be done: no join target lists a parameter twice, and the shared
/// registers of all join targets can be numbered after the `r0` that exist.
pub open spec fn joins_possible(blocks: Seq<SSABlock>, cfg: ControlFlowGraph, needs: BlockNeeds, r0: nat) -> bool {
    &&& forall|i: int|
        0 <= i < cfg.approximate_toposort@.len() && is_join_target(
            cfg,
            needs,
            #[trigger] cfg.approximate_toposort@[i].id as int,
        ) ==> blocks[cfg.approximate_toposort@[i].id as int].parameters@.no_duplicates()
    &&& r0 + join_registers(cfg, needs, cfg.approximate_toposort@.len()) <= usize::MAX
}

impl SSA {
    /// Inserts join blocks in front of every reachable block with needs and more than
    /// one jumper. Fails only when a block lists a parameter twice or registers run out.
    pub fn generate_phantoms(&mut self, cfg: &ControlFlowGraph, needs: &BlockNeeds) -> (r: Result<(), LowerError>)
        requires
            analyzed(old(self).blocks@, *cfg),
            needs_of(old(self).blocks@, *needs),
        ensures
            final(self).blocks@.len() >= old(self).blocks@.len(),
            flow_ok(old(self).blocks@) ==> flow_ok(final(self).blocks@),
            final(self).argument_registers == old(self).argument_registers,
            r matches Err(e) ==> e is DuplicateParameter || e is TooManyRegisters,
            r matches Err(LowerError::DuplicateParameter(t)) ==> t.id < old(self).blocks@.len()
                && !old(self).blocks@[t.id as int].parameters@.no_duplicates(),
            r is Ok <==> joins_possible(old(self).blocks@, *cfg, *needs, old(self).n_registers as nat),
            (forall|i: int|
                0 <= i < cfg.approximate_toposort@.len() ==> !is_join_target(
                    *cfg,
                    *needs,
                    #[trigger] cfg.approximate_toposort@[i].id as int,
                )) ==> final(self).blocks@ == old(self).blocks@ && r is Ok,
            r is Ok ==> final(self).n_registers == old(self).n_registers + join_registers(
                *cfg,
                *needs,
                cfg.approximate_toposort@.len(),
            ),
            r is Ok && flow_ok(old(self).blocks@) ==> final(self).blocks@.len() == old(self).blocks@.len() + join_blocks(
                *cfg,
                *needs,
                cfg.approximate_toposort@.len(),
            ) && forall|i: int|
                0 <= i < cfg.approximate_toposort@.len() && is_join_target(
                    *cfg,
                    *needs,
                    #[trigger] cfg.approximate_toposort@[i].id as int,
                ) ==> joined_at(
                    final(self).blocks@,
                    *cfg,
                    *needs,
                    old(self).blocks@.len(),
                    old(self).n_registers as nat,
                    i,
                ),
            r is Ok ==> forall|i: int|
                0 <= i < cfg.approximate_toposort@.len() && is_join_target(
                    *cfg,
                    *needs,
                    #[trigger] cfg.approximate_toposort@[i].id as int,
                ) ==> {
                    let t = cfg.approximate_toposort@[i].id as int;
                    &&& final(self).blocks@[t].parameters@.len() == 0
                    &&& forall|v: Var| needs.needs(t, v) ==> #[trigger] final(self).blocks@[t].bindings().contains_key(v)
                },
    {
        let n0 = self.blocks.len();
        let ghost orig = self.blocks@;
        let order = &cfg.approximate_toposort;
        let mut i: usize = 0;
        while i < order.len()
            invariant
                analyzed(orig, *cfg),
                needs_of(orig, *needs),
                n0 == orig.len(),
                orig == old(self).blocks@,
                self.blocks@.len() >= n0,
                self.blocks@.len() == n0 + join_blocks(*cfg, *needs, i as nat),
                i <= order@.len(),
                order == &cfg.approximate_toposort,
                self.n_registers == old(self).n_registers + join_registers(*cfg, *needs, i as nat),
                flow_ok(orig) ==> forall|j: int|
                    0 <= j < i && is_join_target(*cfg, *needs, #[trigger] order@[j].id as int) ==> joined_at(
                        self.blocks@,
                        *cfg,
                        *needs,
                        n0 as nat,
                        old(self).n_registers as nat,
                        j,
                    ),
                flow_ok(orig) ==> forall|b: int|
                    0 <= b < n0 && (forall|j: int|
                        0 <= j < i && is_join_target(*cfg, *needs, #[trigger] order@[j].id as int)
                            ==> cfg.block_jumps_to@[b] != Some(order@[j])) ==> same_flow(orig[b], #[trigger] self.blocks@[b]),
                flow_ok(orig) ==> flow_ok(self.blocks@),
                self.argument_registers == old(self).argument_registers,
                (forall|j: int| 0 <= j < i ==> !is_join_target(*cfg, *needs, #[trigger] order@[j].id as int)) ==> self.blocks@
                    == orig,
                forall|j: int|
                    0 <= j < i && is_join_target(*cfg, *needs, #[trigger] order@[j].id as int)
                        ==> orig[order@[j].id as int].parameters@.no_duplicates(),
                forall|b: int|
                    0 <= b < n0 && !(exists|j: int| 0 <= j < i && #[trigger] order@[j].id == b) ==> (#[trigger] self.blocks@[b]).parameters
                        == orig[b].parameters,
                forall|j: int|
                    0 <= j < i && is_join_target(*cfg, *needs, #[trigger] order@[j].id as int) ==> {
                        let t = order@[j].id as int;
                        &&& self.blocks@[t].parameters@.len() == 0
                        &&& forall|v: Var| needs.needs(t, v) ==> #[trigger] self.blocks@[t].bindings().contains_key(v)
                    },
            decreases order@.len() - i,
        {
            let target = order[i];
            let jumpers = cfg.jumpers(target);
            let target_needs = &needs.block_needs[target.id];
            let ghost joins = is_join_target(*cfg, *needs, target.id as int);
            proof {
                if jumpers@.len() > 1 {
                    let a = jumpers@[0].id as int;
                    let b = jumpers@[1].id as int;
                    assert(jumpers@.contains(BlockId { id: a as usize }));
                    assert(jumpers@.contains(BlockId { id: b as usize }));
                    if a < b {
                        assert(cfg.block_jumps_to@[a] == Some(target) && cfg.block_jumps_to@[b] == Some(target));
                    } else {
                        assert(cfg.block_jumps_to@[b] == Some(target) && cfg.block_jumps_to@[a] == Some(target));
                    }
                }
                if joins {
                    let (p1, p2) = choose|p1: int, p2: int|
                        0 <= p1 < p2 < cfg.block_jumps_to@.len() && #[trigger] cfg.block_jumps_to@[p1] == Some(
                            BlockId { id: target.id as usize },
                        ) && #[trigger] cfg.block_jumps_to@[p2] == Some(BlockId { id: target.id as usize });
                    assert(jumpers@.contains(BlockId { id: p1 as usize }));
                    assert(jumpers@.contains(BlockId { id: p2 as usize }));
                    if jumpers@.len() <= 1 {
                        let x = choose|x: int| 0 <= x < jumpers@.len() && jumpers@[x] == BlockId { id: p1 as usize };
                        let y = choose|y: int| 0 <= y < jumpers@.len() && jumpers@[y] == BlockId { id: p2 as usize };
                        assert(x == y);
                    }
                }
            }
            if jumpers.len() > 1 && target_needs.len() > 0 {
                let t_params = &self.blocks[target.id].parameters;
                proof {
                    assert(!(exists|j: int| 0 <= j < i && #[trigger] order@[j].id == target.id)) by {
                        if exists|j: int| 0 <= j < i && #[trigger] order@[j].id == target.id {
                            let j = choose|j: int| 0 <= j < i && #[trigger] order@[j].id == target.id;
                            assert(order@[j] == order@[i as int]);
                        }
                    }
                }
                if has_duplicates(t_params) {
                    proof {
                        assert(!orig[target.id as int].parameters@.no_duplicates());
                        assert(is_join_target(*cfg, *needs, order@[i as int].id as int));
                    }
                    return Err(LowerError::DuplicateParameter(target));
                }
                if self.n_registers > usize::MAX - target_needs.len() {
                    proof {
                        assert(join_registers(*cfg, *needs, (i + 1) as nat) == join_registers(*cfg, *needs, i as nat)
                            + target_needs@.len());
                        lemma_join_registers_grow(*cfg, *needs, (i + 1) as nat, order@.len() as nat);
                    }
                    return Err(LowerError::TooManyRegisters);
                }
                proof {
                    assert(!(exists|j: int| 0 <= j < i && #[trigger] order@[j].id == target.id)) by {
                        if exists|j: int| 0 <= j < i && #[trigger] order@[j].id == target.id {
                            let j = choose|j: int| 0 <= j < i && #[trigger] order@[j].id == target.id;
                            assert(order@[j] == order@[i as int]);
                        }
                    }
                    assert(self.blocks@[target.id as int].parameters == orig[target.id as int].parameters);
                    assert forall|v: Var| #[trigger] self.blocks@[target.id as int].parameters@.contains(v) implies target_needs@.contains(v) by {
                        assert(orig[target.id as int].parameters@.contains(v));
                        assert(needs.needs(target.id as int, v));
                    }
                }
                let ghost before = self.blocks@;
                assert(forall|j: int|
                    0 <= j < i && is_join_target(*cfg, *needs, #[trigger] order@[j].id as int) ==> {
                        let t = order@[j].id as int;
                        &&& before[t].parameters@.len() == 0
                        &&& forall|v: Var| needs.needs(t, v) ==> #[trigger] before[t].bindings().contains_key(v)
                    });
                let ph = self.join_block(target, &jumpers, target_needs);
                proof {
                    assert(join_blocks(*cfg, *needs, (i + 1) as nat) == join_blocks(*cfg, *needs, i as nat) + jumpers@.len());
                    if flow_ok(orig) {
                        lemma_join_step(orig, before, self.blocks@, *cfg, *needs, n0 as nat, old(self).n_registers as nat, i as int, jumpers@, ph@);
                    }
                }
                proof {
                    assert forall|b: int|
                        0 <= b < n0 && !(exists|j: int| 0 <= j < i + 1 && #[trigger] order@[j].id == b) implies (#[trigger] self.blocks@[b]).parameters
                            == orig[b].parameters by {
                        assert(order@[i as int].id != b);
                        assert(!(exists|j: int| 0 <= j < i && #[trigger] order@[j].id == b)) by {
                            if exists|j: int| 0 <= j < i && #[trigger] order@[j].id == b {
                                let j = choose|j: int| 0 <= j < i && #[trigger] order@[j].id == b;
                                assert(0 <= j < i + 1 && order@[j].id == b);
                            }
                        }
                        if jumpers@.contains(BlockId { id: b as usize }) {
                            let k = choose|k: int| 0 <= k < jumpers@.len() && jumpers@[k] == BlockId { id: b as usize };
                            assert(jumpers@[k] != target);
                        }
                    }
                    assert forall|j: int|
                        0 <= j < i + 1 && is_join_target(*cfg, *needs, #[trigger] order@[j].id as int) implies {
                            let t = order@[j].id as int;
                            &&& self.blocks@[t].parameters@.len() == 0
                            &&& forall|v: Var| needs.needs(t, v) ==> #[trigger] self.blocks@[t].bindings().contains_key(v)
                        } by {
                        let t = order@[j].id as int;
                        assert(t < n0);
                        if j == i {
                            assert(t == target.id);
                            assert(forall|v: Var| #[trigger] before[t].parameters@.contains(v) ==> target_needs@.contains(v));
                            assert(self.blocks@[t].parameters@.len() == 0);
                            assert forall|v: Var| needs.needs(t, v) implies #[trigger] self.blocks@[t].bindings().contains_key(v) by {
                                let k = choose|k: int| 0 <= k < target_needs@.len() && target_needs@[k] == v;
                                assert(self.blocks@[t].bindings().contains_key(target_needs@[k]));
                            }
                        } else {
                            assert(order@[j] != order@[i as int]);
                            if jumpers@.contains(BlockId { id: t as usize }) {
                                let k = choose|k: int| 0 <= k < jumpers@.len() && jumpers@[k] == BlockId { id: t as usize };
                                assert(jumpers@[k] != target);
                                assert(self.blocks@[t].populates == before[t].populates);
                                assert(self.blocks@[t].parameters == before[t].parameters);
                            } else {
                                assert(self.blocks@[t] == before[t]);
                            }
                            assert(before[t].parameters@.len() == 0);
                            assert(self.blocks@[t].parameters@.len() == 0);
                            assert forall|v: Var| needs.needs(t, v) implies #[trigger] self.blocks@[t].bindings().contains_key(v) by {
                                assert(before[t].bindings().contains_key(v));
                            }
                        }
                    }
                }
            } else {
                proof {
                    assert forall|b: int|
                        0 <= b < n0 && !(exists|j: int| 0 <= j < i + 1 && #[trigger] order@[j].id == b) implies (#[trigger] self.blocks@[b]).parameters
                            == orig[b].parameters by {
                        if exists|j: int| 0 <= j < i && #[trigger] order@[j].id == b {
                            let j = choose|j: int| 0 <= j < i && #[trigger] order@[j].id == b;
                            assert(0 <= j < i + 1 && order@[j].id == b);
                        }
                    }
                }
            }
            i = i + 1;
        }
        Ok(())
    }
}

} // verus!
