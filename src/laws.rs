use vstd::prelude::*;

use crate::dispatch::{run, step, token_key, TokenId};
use crate::field::{resolved_flags, FieldView};
use crate::flag::FlagId;
use crate::registry::{actions_of, bindings, field_bindings, lemma_bindings_below, compiled_from, lemma_has_key_iff_nonempty, lookup};

verus! {

/// The token that spells flag `f`.
pub open spec fn flag_token(f: FlagId) -> TokenId {
    match f {
        FlagId::Short(c) => TokenId::Short(c),
        FlagId::Long(s) => TokenId::Long(s),
    }
}

/// Whether a token spells a flag that some field of `decls` answers to.
pub open spec fn is_registered(decls: Seq<FieldView>, t: TokenId) -> bool {
    &&& token_key(t) is Some
    &&& actions_of(bindings(decls), token_key(t)->Some_0).len() > 0
}

/// For each token in arrival order, every action bound to its flag, once
/// per binding.
pub open spec fn fired(decls: Seq<FieldView>, ts: Seq<TokenId>) -> Seq<usize>
    decreases ts.len(),
{
    if ts.len() == 0 {
        seq![]
    } else {
        fired(decls, ts.drop_last()) + actions_of(bindings(decls), token_key(ts.last())->Some_0)
    }
}

/// Running the matcher compiled from `decls` over a stream made only of
/// registered flags, in any order and with any repetition, accepts, and
/// fires each bound action once per occurrence of its flag, in arrival
/// order.
pub proof fn lemma_round_trip(
    es: Seq<(FlagId, Seq<usize>)>,
    decls: Seq<FieldView>,
    ts: Seq<TokenId>,
)
    requires
        compiled_from(es, decls),
        forall|k: int| 0 <= k < ts.len() ==> is_registered(decls, #[trigger] ts[k]),
    ensures
        run(es, ts) == Ok::<Seq<usize>, TokenId>(fired(decls, ts)),
    decreases ts.len(),
{
    if ts.len() > 0 {
        let init = ts.drop_last();
        assert forall|k: int| 0 <= k < init.len() implies is_registered(decls, #[trigger] init[k]) by {
            assert(init[k] == ts[k]);
        }
        lemma_round_trip(es, decls, init);
        assert(is_registered(decls, ts[ts.len() - 1]));
        let f = token_key(ts.last())->Some_0;
        assert(lookup(es, f) == actions_of(bindings(decls), f));
    }
}

/// A flag declared twice on the only field binds that field's action
/// twice: the flag fires it twice in a single match.
pub proof fn lemma_duplicate_flag_fires_twice(
    es: Seq<(FlagId, Seq<usize>)>,
    name: Seq<char>,
    f: FlagId,
)
    requires
        compiled_from(es, seq![(name, seq![f, f])]),
    ensures
        lookup(es, f) == seq![0usize, 0usize],
        run(es, seq![flag_token(f)]) == Ok::<Seq<usize>, TokenId>(seq![0usize, 0usize]),
{
    let decls = seq![(name, seq![f, f])];
    assert(decls.drop_last() =~= Seq::<FieldView>::empty());
    let bs = bindings(decls);
    assert(resolved_flags(decls.last()) == seq![f, f]);
    assert(bindings(decls.drop_last()) == Seq::<(FlagId, usize)>::empty());
    assert(field_bindings(seq![f, f], 0usize) =~= seq![(f, 0usize), (f, 0usize)]);
    assert(bs =~= seq![(f, 0usize), (f, 0usize)]);
    let b1 = seq![(f, 0usize)];
    assert(bs.drop_last() =~= b1);
    assert(b1.drop_last() =~= Seq::<(FlagId, usize)>::empty());
    assert(actions_of(b1.drop_last(), f) == Seq::<usize>::empty());
    assert(b1.last() == (f, 0usize));
    assert(actions_of(b1, f) =~= seq![0usize]);
    assert(actions_of(bs, f) =~= seq![0usize, 0usize]);
    let ts = seq![flag_token(f)];
    assert(ts.drop_last() =~= Seq::<TokenId>::empty());
    assert(token_key(flag_token(f)) == Some(f));
    assert(step(es, flag_token(f)) == Ok::<Seq<usize>, TokenId>(seq![0usize, 0usize]));
    assert(run(es, ts.drop_last()) == Ok::<Seq<usize>, TokenId>(seq![]));
    assert(Seq::<usize>::empty() + seq![0usize, 0usize] =~= seq![0usize, 0usize]);
}

/// A token whose flag has no entry, or that spells no flag, is rejected
/// with that token, and so is every stream that begins with it.
pub proof fn lemma_unknown_rejected(
    es: Seq<(FlagId, Seq<usize>)>,
    t: TokenId,
    rest: Seq<TokenId>,
)
    requires
        token_key(t) is Some ==> lookup(es, token_key(t)->Some_0).len() == 0,
    ensures
        run(es, seq![t] + rest) == Err::<Seq<usize>, TokenId>(t),
    decreases rest.len(),
{
    if rest.len() == 0 {
        assert(seq![t] + rest =~= seq![t]);
        assert(seq![t].drop_last() =~= Seq::<TokenId>::empty());
    } else {
        assert((seq![t] + rest).drop_last() =~= seq![t] + rest.drop_last());
        lemma_unknown_rejected(es, t, rest.drop_last());
        assert(run(es, (seq![t] + rest).drop_last()) == Err::<Seq<usize>, TokenId>(t));
    }
}

/// How many times `x` occurs in `s`.
pub open spec fn occurrences<A>(s: Seq<A>, x: A) -> nat
    decreases s.len(),
{
    if s.len() == 0 {
        0
    } else {
        occurrences(s.drop_last(), x) + if s.last() == x {
            1nat
        } else {
            0nat
        }
    }
}

proof fn lemma_occurrences_concat<A>(s: Seq<A>, t: Seq<A>, x: A)
    ensures
        occurrences(s + t, x) == occurrences(s, x) + occurrences(t, x),
    decreases t.len(),
{
    if t.len() > 0 {
        assert((s + t).drop_last() =~= s + t.drop_last());
        lemma_occurrences_concat(s, t.drop_last(), x);
    } else {
        assert(s + t =~= s);
    }
}

proof fn lemma_occurrences_absent<A>(s: Seq<A>, x: A)
    requires
        forall|k: int| 0 <= k < s.len() ==> s[k] != x,
    ensures
        occurrences(s, x) == 0,
    decreases s.len(),
{
    if s.len() > 0 {
        assert(s.last() != x);
        lemma_occurrences_absent(s.drop_last(), x);
    }
}

proof fn lemma_actions_of_concat(a: Seq<(FlagId, usize)>, b: Seq<(FlagId, usize)>, f: FlagId)
    ensures
        actions_of(a + b, f) == actions_of(a, f) + actions_of(b, f),
    decreases b.len(),
{
    if b.len() > 0 {
        assert((a + b).drop_last() =~= a + b.drop_last());
        lemma_actions_of_concat(a, b.drop_last(), f);
        let tail = if b.last().0 == f {
            seq![b.last().1]
        } else {
            seq![]
        };
        assert(actions_of(a, f) + actions_of(b.drop_last(), f) + tail =~= actions_of(a, f) + (
        actions_of(b.drop_last(), f) + tail));
    } else {
        assert(a + b =~= a);
        assert(actions_of(a, f) + Seq::<usize>::empty() =~= actions_of(a, f));
    }
}

/// Every action of `actions_of(bs, f)` is the action of some binding.
proof fn lemma_actions_of_members(bs: Seq<(FlagId, usize)>, f: FlagId, a: usize)
    requires
        forall|k: int| 0 <= k < bs.len() ==> (#[trigger] bs[k]).1 != a,
    ensures
        occurrences(actions_of(bs, f), a) == 0,
    decreases bs.len(),
{
    if bs.len() > 0 {
        let init = bs.drop_last();
        assert forall|k: int| 0 <= k < init.len() implies (#[trigger] init[k]).1 != a by {
            assert(init[k] == bs[k]);
        }
        lemma_actions_of_members(init, f, a);
        let tail = if bs.last().0 == f {
            seq![bs.last().1]
        } else {
            seq![]
        };
        assert(bs[bs.len() - 1].1 != a);
        lemma_occurrences_concat(actions_of(init, f), tail, a);
        if bs.last().0 == f {
            assert(tail.drop_last() =~= Seq::<usize>::empty());
            assert(occurrences(tail.drop_last(), a) == 0);
            assert(occurrences(tail, a) == 0);
        } else {
            assert(occurrences(tail, a) == 0);
        }
        assert(actions_of(bs, f) == actions_of(init, f) + tail);
    }
}

proof fn lemma_field_bindings_count(flags: Seq<FlagId>, a: usize, f: FlagId)
    ensures
        occurrences(actions_of(field_bindings(flags, a), f), a) == occurrences(flags, f),
    decreases flags.len(),
{
    if flags.len() > 0 {
        let init = flags.drop_last();
        assert(field_bindings(flags, a).drop_last() =~= field_bindings(init, a));
        lemma_field_bindings_count(init, a, f);
        let tail = if flags.last() == f {
            seq![a]
        } else {
            seq![]
        };
        lemma_occurrences_concat(actions_of(field_bindings(init, a), f), tail, a);
        let fb = field_bindings(flags, a);
        assert(fb.last() == (flags.last(), a));
        assert(actions_of(fb, f) == actions_of(field_bindings(init, a), f) + tail);
        if flags.last() == f {
            assert(tail.drop_last() =~= Seq::<usize>::empty());
            assert(occurrences(tail.drop_last(), a) == 0);
            assert(occurrences(tail, a) == 1);
        } else {
            assert(occurrences(tail, a) == 0);
        }
    }
}

/// A field's action is bound to a flag once for every time the flag occurs
/// among the field's resolved flags: a flag declared twice on one field
/// fires that field's action twice, and a flag the field does not answer
/// to never fires it.
pub proof fn lemma_action_multiplicity(decls: Seq<FieldView>, i: int, f: FlagId)
    requires
        decls.len() <= usize::MAX,
        0 <= i < decls.len(),
    ensures
        occurrences(actions_of(bindings(decls), f), i as usize) == occurrences(
            resolved_flags(decls[i]),
            f,
        ),
    decreases decls.len(),
{
    let n = decls.len();
    let init = decls.drop_last();
    let last = (n - 1) as usize;
    let a = bindings(init);
    let b = field_bindings(resolved_flags(decls.last()), last);
    lemma_actions_of_concat(a, b, f);
    lemma_occurrences_concat(actions_of(a, f), actions_of(b, f), i as usize);
    if i == n - 1 {
        lemma_bindings_below(init);
        lemma_actions_of_members(a, f, i as usize);
        lemma_field_bindings_count(resolved_flags(decls.last()), last, f);
    } else {
        lemma_action_multiplicity(init, i, f);
        assert(init[i] == decls[i]);
        assert forall|k: int| 0 <= k < b.len() implies (#[trigger] b[k]).1 != i as usize by {}
        lemma_actions_of_members(b, f, i as usize);
    }
}

/// The character at position `k`, as a value of its own.
proof fn char_at(s: Seq<char>, k: int) -> (c: char)
    requires
        0 <= k < s.len(),
    ensures
        c == s[k],
{
    s[k]
}

/// A field with no explicit flags and a name longer than one character
/// answers exactly to its first character as a short flag and to its whole
/// name as a long flag: its action is bound once to each of those two
/// flags and to no other.
pub proof fn lemma_inferred_short_and_long(decls: Seq<FieldView>, i: int, g: FlagId)
    requires
        decls.len() <= usize::MAX,
        0 <= i < decls.len(),
        decls[i].1.len() == 0,
        decls[i].0.len() > 1,
    ensures
        occurrences(actions_of(bindings(decls), g), i as usize) == if g == FlagId::Short(
            decls[i].0[0],
        ) || g == FlagId::Long(decls[i].0) {
            1nat
        } else {
            0nat
        },
{
    lemma_action_multiplicity(decls, i, g);
    let c = char_at(decls[i].0, 0);
    let s = FlagId::Short(c);
    let l = FlagId::Long(decls[i].0);
    let r = resolved_flags(decls[i]);
    assert(r == seq![s, l]);
    assert(r.drop_last() =~= seq![s]);
    assert(seq![s].drop_last() =~= Seq::<FlagId>::empty());
    assert(seq![s].last() == s);
    assert(r.last() == l);
    assert(occurrences(Seq::<FlagId>::empty(), g) == 0);
    assert(occurrences(seq![s], g) == if g == s {
        1nat
    } else {
        0nat
    });
}

/// A field with no explicit flags and a one-character name answers only
/// to that character as a short flag: its action is bound once to that
/// flag and to no other, so no long flag is inferred.
pub proof fn lemma_inferred_short_only(decls: Seq<FieldView>, i: int, g: FlagId)
    requires
        decls.len() <= usize::MAX,
        0 <= i < decls.len(),
        decls[i].1.len() == 0,
        decls[i].0.len() == 1,
    ensures
        occurrences(actions_of(bindings(decls), g), i as usize) == if g == FlagId::Short(
            decls[i].0[0],
        ) {
            1nat
        } else {
            0nat
        },
{
    lemma_action_multiplicity(decls, i, g);
    let c = char_at(decls[i].0, 0);
    let s = FlagId::Short(c);
    let r = resolved_flags(decls[i]);
    assert(r == seq![s]);
    assert(r.drop_last() =~= Seq::<FlagId>::empty());
    assert(r.last() == s);
    assert(occurrences(Seq::<FlagId>::empty(), g) == 0);
}

} // verus!
