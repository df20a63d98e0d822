use vstd::prelude::*;

use crate::field::{field_views, ids, resolve_flags, resolved_flags, FieldDecl, FieldView};
use crate::flag::{Flag, FlagId};

verus! {

/// A field's flags, each paired with the field's action `a`.
pub open spec fn field_bindings(flags: Seq<FlagId>, a: usize) -> Seq<(FlagId, usize)> {
    Seq::new(flags.len(), |k: int| (flags[k], a))
}

/// Every (flag, action) pair of a declaration set, in field order and then
/// flag order; the action of a field is its position.
pub open spec fn bindings(decls: Seq<FieldView>) -> Seq<(FlagId, usize)>
    decreases decls.len(),
{
    if decls.len() == 0 {
        seq![]
    } else {
        bindings(decls.drop_last()) + field_bindings(
            resolved_flags(decls.last()),
            (decls.len() - 1) as usize,
        )
    }
}

/// The actions bound to flag `f`, in binding order, one per binding.
pub open spec fn actions_of(bs: Seq<(FlagId, usize)>, f: FlagId) -> Seq<usize>
    decreases bs.len(),
{
    if bs.len() == 0 {
        seq![]
    } else {
        actions_of(bs.drop_last(), f) + if bs.last().0 == f {
            seq![bs.last().1]
        } else {
            seq![]
        }
    }
}

/// The action sequence stored for `f` in a table of entries, or the empty
/// sequence when `f` has no entry.
pub open spec fn lookup(es: Seq<(FlagId, Seq<usize>)>, f: FlagId) -> Seq<usize>
    decreases es.len(),
{
    if es.len() == 0 {
        seq![]
    } else if es.last().0 == f {
        es.last().1
    } else {
        lookup(es.drop_last(), f)
    }
}

/// Whether `f` has an entry in the table.
pub open spec fn has_key(es: Seq<(FlagId, Seq<usize>)>, f: FlagId) -> bool {
    exists|i: int| 0 <= i < es.len() && #[trigger] es[i].0 == f
}

/// No flag has two entries, and no entry is empty.
pub open spec fn entries_wf(es: Seq<(FlagId, Seq<usize>)>) -> bool {
    &&& forall|i: int, j: int| 0 <= i < j < es.len() ==> es[i].0 != es[j].0
    &&& forall|i: int| 0 <= i < es.len() ==> (#[trigger] es[i]).1.len() > 0
}

/// The table holds exactly the bindings of `decls`: for every flag, the
/// actions bound to it in declaration order, and an entry only for flags
/// that are bound.
pub open spec fn compiled_from(es: Seq<(FlagId, Seq<usize>)>, decls: Seq<FieldView>) -> bool {
    &&& entries_wf(es)
    &&& forall|f: FlagId| #[trigger] lookup(es, f) == actions_of(bindings(decls), f)
    &&& forall|f: FlagId| #[trigger] has_key(es, f) <==> actions_of(bindings(decls), f).len() > 0
}

proof fn lemma_lookup_at(es: Seq<(FlagId, Seq<usize>)>, i: int)
    requires
        entries_wf(es),
        0 <= i < es.len(),
    ensures
        lookup(es, es[i].0) == es[i].1,
    decreases es.len(),
{
    if i < es.len() - 1 {
        assert(es.drop_last()[i] == es[i]);
        lemma_lookup_at(es.drop_last(), i);
    }
}

proof fn lemma_lookup_absent(es: Seq<(FlagId, Seq<usize>)>, f: FlagId)
    requires
        !has_key(es, f),
    ensures
        lookup(es, f) == Seq::<usize>::empty(),
    decreases es.len(),
{
    if es.len() > 0 {
        assert(es[es.len() - 1].0 != f);
        assert forall|i: int| 0 <= i < es.drop_last().len() implies #[trigger] es.drop_last()[i].0
            != f by {
            assert(es.drop_last()[i] == es[i]);
        }
        lemma_lookup_absent(es.drop_last(), f);
    }
}

/// In a well-formed table, a flag has an entry exactly when its action
/// sequence is non-empty.
pub proof fn lemma_has_key_iff_nonempty(es: Seq<(FlagId, Seq<usize>)>, f: FlagId)
    requires
        entries_wf(es),
    ensures
        has_key(es, f) <==> lookup(es, f).len() > 0,
{
    if has_key(es, f) {
        let i = choose|i: int| 0 <= i < es.len() && #[trigger] es[i].0 == f;
        lemma_lookup_at(es, i);
    } else {
        lemma_lookup_absent(es, f);
    }
}

proof fn lemma_actions_of_push(bs: Seq<(FlagId, usize)>, b: (FlagId, usize), f: FlagId)
    ensures
        actions_of(bs.push(b), f) == actions_of(bs, f) + if b.0 == f {
            seq![b.1]
        } else {
            seq![]
        },
{
    assert(bs.push(b).drop_last() =~= bs);
}

/// The actions in the bindings of `decls` are positions of its fields.
pub proof fn lemma_bindings_below(decls: Seq<FieldView>)
    requires
        decls.len() <= usize::MAX,
    ensures
        forall|k: int| 0 <= k < bindings(decls).len() ==> (#[trigger] bindings(decls)[k]).1 < decls.len(),
    decreases decls.len(),
{
    if decls.len() > 0 {
        let init = decls.drop_last();
        lemma_bindings_below(init);
        let a = bindings(init);
        let b = field_bindings(resolved_flags(decls.last()), (decls.len() - 1) as usize);
        assert forall|k: int| 0 <= k < bindings(decls).len() implies (#[trigger] bindings(
            decls,
        )[k]).1 < decls.len() by {
            if k < a.len() {
                assert(bindings(decls)[k] == a[k]);
            } else {
                assert(bindings(decls)[k] == b[k - a.len()]);
            }
        }
    }
}

/// Every action stored in the table is below `n`.
pub open spec fn actions_below(es: Seq<(FlagId, Seq<usize>)>, n: nat) -> bool {
    forall|i: int, k: int|
        0 <= i < es.len() && 0 <= k < es[i].1.len() ==> #[trigger] es[i].1[k] < n
}

/// Actions bound below `n` stay below `n` when gathered for one flag.
pub proof fn lemma_actions_of_below(bs: Seq<(FlagId, usize)>, f: FlagId, n: nat)
    requires
        forall|j: int| 0 <= j < bs.len() ==> (#[trigger] bs[j]).1 < n,
    ensures
        forall|k: int| 0 <= k < actions_of(bs, f).len() ==> #[trigger] actions_of(bs, f)[k] < n,
    decreases bs.len(),
{
    if bs.len() > 0 {
        let init = bs.drop_last();
        assert forall|j: int| 0 <= j < init.len() implies (#[trigger] init[j]).1 < n by {
            assert(init[j] == bs[j]);
        }
        lemma_actions_of_below(init, f, n);
        assert(bs[bs.len() - 1].1 < n);
        let a = actions_of(init, f);
        let tail = if bs.last().0 == f {
            seq![bs.last().1]
        } else {
            seq![]
        };
        assert(actions_of(bs, f) == a + tail);
        assert forall|k: int| 0 <= k < actions_of(bs, f).len() implies #[trigger] actions_of(
            bs,
            f,
        )[k] < n by {
            if k < a.len() {
                assert((a + tail)[k] == a[k]);
            } else {
                assert((a + tail)[k] == tail[k - a.len()]);
            }
        }
    }
}

/// What a table stores for any flag is below `n` when all it stores is.
pub proof fn lemma_lookup_below(es: Seq<(FlagId, Seq<usize>)>, f: FlagId, n: nat)
    requires
        actions_below(es, n),
    ensures
        forall|k: int| 0 <= k < lookup(es, f).len() ==> #[trigger] lookup(es, f)[k] < n,
    decreases es.len(),
{
    if es.len() > 0 {
        let init = es.drop_last();
        assert forall|i: int, k: int| 0 <= i < init.len() && 0 <= k < init[i].1.len() implies #[trigger] init[i].1[k] < n by {
            assert(init[i] == es[i]);
        }
        lemma_lookup_below(init, f, n);
        if es.last().0 == f {
            assert forall|k: int| 0 <= k < lookup(es, f).len() implies #[trigger] lookup(es, f)[k]
                < n by {
                assert(lookup(es, f) == es[es.len() - 1].1);
            }
        } else {
            assert(lookup(es, f) == lookup(init, f));
        }
    }
}

/// The flag registry: for each flag, the ordered actions bound to it.
/// Entries are kept in the order in which their flags were first seen.
pub struct Registry {
    keys: Vec<Flag>,
    actions: Vec<Vec<usize>>,
}

impl View for Registry {
    type V = Seq<(FlagId, Seq<usize>)>;

    closed spec fn view(&self) -> Seq<(FlagId, Seq<usize>)> {
        Seq::new(self.keys@.len(), |i: int| (self.keys@[i]@, self.actions@[i]@))
    }
}

impl Registry {
    /// Keys and action sequences pair up one to one, and the table they
    /// form is well formed.
    pub closed spec fn wf(&self) -> bool {
        &&& self.keys@.len() == self.actions@.len()
        &&& entries_wf(self@)
    }

    /// A registry with no entries.
    pub fn new() -> (r: Registry)
        ensures
            r.wf(),
            r@ == Seq::<(FlagId, Seq<usize>)>::empty(),
    {
        let r = Registry { keys: Vec::new(), actions: Vec::new() };
        assert(r@ =~= Seq::<(FlagId, Seq<usize>)>::empty());
        r
    }

    /// The position of the entry for `f`, if there is one.
    fn find(&self, f: &Flag) -> (r: Option<usize>)
        requires
            self.wf(),
        ensures
            match r {
                Some(i) => i < self@.len() && self@[i as int].0 == f@,
                None => !has_key(self@, f@),
            },
    {
        let mut i: usize = 0;
        while i < self.keys.len()
            invariant
                self.wf(),
                i <= self.keys@.len(),
                forall|j: int| 0 <= j < i ==> self@[j].0 != f@,
            decreases self.keys@.len() - i,
        {
            if self.keys[i].same_as(f) {
                return Some(i);
            }
            i += 1;
        }
        None
    }

    /// Appends action `a` to the sequence registered for `f`, creating the
    /// entry when `f` has none.
    pub fn add(&mut self, f: &Flag, a: usize)
        requires
            old(self).wf(),
        ensures
            final(self).wf(),
            forall|g: FlagId| #[trigger]
                lookup(final(self)@, g) == lookup(old(self)@, g) + if g == f@ {
                    seq![a]
                } else {
                    seq![]
                },
    {
        let ghost es0 = self@;
        match self.find(f) {
            Some(i) => {
                self.actions[i].push(a);
                let ghost es1 = self@;
                assert(es1 =~= es0.update(i as int, (f@, es0[i as int].1.push(a))));
                assert forall|g: FlagId| #[trigger]
                    lookup(es1, g) == lookup(es0, g) + if g == f@ {
                        seq![a]
                    } else {
                        seq![]
                    } by {
                    lemma_lookup_at(es0, i as int);
                    lemma_lookup_at(es1, i as int);
                    if g != f@ {
                        if has_key(es0, g) {
                            let j = choose|j: int| 0 <= j < es0.len() && #[trigger] es0[j].0 == g;
                            lemma_lookup_at(es0, j);
                            lemma_lookup_at(es1, j);
                        } else {
                            assert(!has_key(es1, g)) by {
                                if has_key(es1, g) {
                                    let j = choose|j: int|
                                        0 <= j < es1.len() && #[trigger] es1[j].0 == g;
                                    assert(es0[j].0 == g);
                                }
                            }
                            lemma_lookup_absent(es0, g);
                            lemma_lookup_absent(es1, g);
                        }
                    } else {
                        assert(es0[i as int].1.push(a) =~= es0[i as int].1 + seq![a]);
                    }
                }
            },
            None => {
                let mut acts: Vec<usize> = Vec::new();
                acts.push(a);
                assert(acts@ =~= seq![a]);
                self.keys.push(f.duplicate());
                self.actions.push(acts);
                let ghost es1 = self@;
                assert(es1 =~= es0.push((f@, seq![a])));
                assert(es1.drop_last() =~= es0);
                proof {
                    lemma_lookup_absent(es0, f@);
                }
                assert forall|g: FlagId| #[trigger]
                    lookup(es1, g) == lookup(es0, g) + if g == f@ {
                        seq![a]
                    } else {
                        seq![]
                    } by {
                    assert(lookup(es0, g) + seq![] =~= lookup(es0, g));
                    assert(Seq::<usize>::empty() + seq![a] =~= seq![a]);
                }
            },
        }
    }

    /// The actions registered for `f`, in order; empty when `f` has no entry.
    pub fn actions_for(&self, f: &Flag) -> (r: Vec<usize>)
        requires
            self.wf(),
        ensures
            r@ == lookup(self@, f@),
    {
        match self.find(f) {
            Some(i) => {
                proof {
                    lemma_lookup_at(self@, i as int);
                }
                let acts = &self.actions[i];
                let mut r: Vec<usize> = Vec::new();
                let mut k: usize = 0;
                while k < acts.len()
                    invariant
                        k <= acts@.len(),
                        r@ =~= acts@.take(k as int),
                    decreases acts@.len() - k,
                {
                    r.push(acts[k]);
                    k += 1;
                    assert(r@ =~= acts@.take(k as int));
                }
                assert(acts@.take(k as int) =~= acts@);
                assert(self@[i as int].1 == acts@);
                r
            },
            None => {
                proof {
                    lemma_lookup_absent(self@, f@);
                }
                Vec::new()
            },
        }
    }
}

proof fn lemma_bindings_step(decls: Seq<FieldView>, i: int)
    requires
        0 <= i < decls.len(),
    ensures
        bindings(decls.take(i + 1)) == bindings(decls.take(i)) + field_bindings(
            resolved_flags(decls[i]),
            i as usize,
        ),
{
    assert(decls.take(i + 1).drop_last() =~= decls.take(i));
}

/// Builds the registry of a declaration set: every field's resolved flags,
/// in field order and then flag order, each appended to the entry of its
/// flag with the field's position as action. Shared flags keep all their
/// actions.
pub fn build_registry(decls: &Vec<FieldDecl>) -> (r: Registry)
    requires
        forall|i: int| 0 <= i < decls@.len() ==> (#[trigger] decls@[i]).well_formed(),
    ensures
        r.wf(),
        compiled_from(r@, field_views(decls@)),
        actions_below(r@, decls@.len()),
{
    let ghost dv = field_views(decls@);
    let mut reg = Registry::new();
    let mut i: usize = 0;
    assert(dv.take(0) =~= Seq::<FieldView>::empty());
    while i < decls.len()
        invariant
            i <= decls@.len(),
            dv == field_views(decls@),
            reg.wf(),
            forall|i: int| 0 <= i < decls@.len() ==> (#[trigger] decls@[i]).well_formed(),
            forall|f: FlagId| #[trigger]
                lookup(reg@, f) == actions_of(bindings(dv.take(i as int)), f),
        decreases decls@.len() - i,
    {
        let flags = resolve_flags(&decls[i]);
        let ghost done = bindings(dv.take(i as int));
        let ghost fl = ids(flags@);
        let mut j: usize = 0;
        assert(field_bindings(fl, i).take(0) =~= Seq::<(FlagId, usize)>::empty());
        assert(done + Seq::<(FlagId, usize)>::empty() =~= done);
        while j < flags.len()
            invariant
                i < decls@.len(),
                dv == field_views(decls@),
                j <= flags@.len(),
                fl == ids(flags@),
                reg.wf(),
                forall|f: FlagId| #[trigger]
                    lookup(reg@, f) == actions_of(done + field_bindings(fl, i).take(j as int), f),
            decreases flags@.len() - j,
        {
            let ghost before = done + field_bindings(fl, i).take(j as int);
            reg.add(&flags[j], i);
            assert(done + field_bindings(fl, i).take(j + 1 as int) =~= before.push(
                (flags@[j as int]@, i),
            ));
            assert forall|f: FlagId| #[trigger]
                lookup(reg@, f) == actions_of(done + field_bindings(fl, i).take(j + 1 as int), f) by {
                lemma_actions_of_push(before, (flags@[j as int]@, i), f);
            }
            j += 1;
        }
        proof {
            lemma_bindings_step(dv, i as int);
            assert(dv[i as int] == decls@[i as int]@);
            assert(field_bindings(fl, i).take(j as int) =~= field_bindings(fl, i));
        }
        i += 1;
    }
    assert(dv.take(i as int) =~= dv);
    assert forall|f: FlagId| #[trigger] has_key(reg@, f) <==> actions_of(bindings(dv), f).len()
        > 0 by {
        lemma_has_key_iff_nonempty(reg@, f);
    }
    proof {
        lemma_bindings_below(dv);
        assert forall|i: int, k: int| 0 <= i < reg@.len() && 0 <= k < reg@[i].1.len() implies #[trigger] reg@[i].1[k] < decls@.len() by {
            lemma_lookup_at(reg@, i);
            lemma_actions_of_below(bindings(dv), reg@[i].0, decls@.len());
        }
    }
    reg
}

} // verus!
