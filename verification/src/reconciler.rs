use vstd::prelude::*;

verus! {

use crate::event::{Event, EventV};
use crate::strutil::split_spaces;
use crate::narrator::named_of;
use crate::seqs::{lemma_contains_push, lemma_contains_take_step, lemma_reverse_add};

/// One tagged intent record: a package that some command installed
/// or removed by name.
pub enum Intent {
    Install(String),
    Remove(String),
}

/// The mathematical value of an `Intent`.
pub enum IntentV {
    Install(Seq<char>),
    Remove(Seq<char>),
}

impl View for Intent {
    type V = IntentV;

    open spec fn view(&self) -> IntentV {
        match self {
            Intent::Install(n) => IntentV::Install(n@),
            Intent::Remove(n) => IntentV::Remove(n@),
        }
    }
}

impl DeepView for Intent {
    type V = IntentV;

    open spec fn deep_view(&self) -> IntentV {
        self.view()
    }
}

pub open spec fn intents_install(names: Seq<Seq<char>>) -> Seq<IntentV> {
    names.map_values(|n: Seq<char>| IntentV::Install(n))
}

pub open spec fn intents_remove(names: Seq<Seq<char>>) -> Seq<IntentV> {
    names.map_values(|n: Seq<char>| IntentV::Remove(n))
}

/// The intent records one command contributes, in chronological
/// replay order: its named removes first, then its named installs,
/// each block restored to chronological order.
pub open spec fn command_intents(
    acc_i: Seq<Seq<char>>,
    acc_r: Seq<Seq<char>>,
    words: Seq<Seq<char>>,
) -> Seq<IntentV> {
    intents_remove(named_of(acc_r, words).reverse()) + intents_install(
        named_of(acc_i, words).reverse(),
    )
}

/// The tagged intent records of a log, in chronological order,
/// gathered by the same reverse scan as the narrator: an install or
/// remove produces a record only when its own triggering command
/// names it.
pub open spec fn intents_rec(
    events: Seq<EventV>,
    acc_i: Seq<Seq<char>>,
    acc_r: Seq<Seq<char>>,
) -> Seq<IntentV>
    decreases events.len(),
{
    if events.len() == 0 {
        Seq::empty()
    } else {
        let rest = events.drop_last();
        match events.last() {
            EventV::Command(_, cmd) => intents_rec(rest, Seq::empty(), Seq::empty())
                + command_intents(acc_i, acc_r, split_spaces(cmd)),
            EventV::Installed(_, n, _) => intents_rec(rest, acc_i.push(n), acc_r),
            EventV::Removed(_, n, _) => intents_rec(rest, acc_i, acc_r.push(n)),
            EventV::Upgraded(_, _, _) => intents_rec(rest, acc_i, acc_r),
            EventV::Downgraded(_, _, _) => intents_rec(rest, acc_i, acc_r),
        }
    }
}

pub open spec fn intent_records(events: Seq<EventV>) -> Seq<IntentV> {
    intents_rec(events, Seq::empty(), Seq::empty())
}

/// The two sets the forward replay of the intent records leaves
/// behind: the currently present intentional packages, and every
/// package that was removed at least once.
pub struct ReplayV {
    pub current: Set<Seq<char>>,
    pub removed: Set<Seq<char>>,
}

/// Replays the intent records chronologically: an install adds the
/// name to the present set, a remove deletes it there and records it
/// as removed at least once.
pub open spec fn replay(ints: Seq<IntentV>) -> ReplayV
    decreases ints.len(),
{
    if ints.len() == 0 {
        ReplayV { current: Set::empty(), removed: Set::empty() }
    } else {
        let prev = replay(ints.drop_last());
        match ints.last() {
            IntentV::Install(n) => ReplayV { current: prev.current.insert(n), removed: prev.removed },
            IntentV::Remove(n) => ReplayV {
                current: prev.current.remove(n),
                removed: prev.removed.insert(n),
            },
        }
    }
}

/// The reconciler's result on a log.
pub open spec fn reconciled(events: Seq<EventV>) -> ReplayV {
    replay(intent_records(events))
}

/// Witness shape for the reconciler consistency law: position `i`
/// installs `name` and no later record removes it.
pub open spec fn intent_keeps(ints: Seq<IntentV>, name: Seq<char>, i: int) -> bool {
    &&& 0 <= i < ints.len()
    &&& ints[i] == IntentV::Install(name)
    &&& forall|j: int| i < j < ints.len() ==> ints[j] != IntentV::Remove(name)
}

/// Reconciler consistency: a package is in the final present set
/// exactly when some install record of it has no later remove
/// record.
pub proof fn lemma_reconciler_consistency(ints: Seq<IntentV>, name: Seq<char>)
    ensures
        replay(ints).current.contains(name) <==> exists|i: int| intent_keeps(ints, name, i),
    decreases ints.len(),
{
    if ints.len() == 0 {
        assert(!(exists|i: int| intent_keeps(ints, name, i)));
    } else {
        let rest = ints.drop_last();
        let last = ints.last();
        lemma_reconciler_consistency(rest, name);
        if last == IntentV::Install(name) {
            assert(replay(ints).current.contains(name));
            assert(intent_keeps(ints, name, ints.len() - 1));
        } else if last == IntentV::Remove(name) {
            assert(!replay(ints).current.contains(name));
            assert forall|i: int| !intent_keeps(ints, name, i) by {
                if 0 <= i < ints.len() && ints[i] == IntentV::Install(name) {
                    assert(ints[ints.len() - 1] == IntentV::Remove(name));
                }
            }
        } else {
            assert(replay(ints).current.contains(name) == replay(rest).current.contains(name));
            if exists|i: int| intent_keeps(rest, name, i) {
                let i = choose|i: int| intent_keeps(rest, name, i);
                assert(ints[i] == rest[i]);
                assert forall|j: int| i < j < ints.len() implies ints[j] != IntentV::Remove(name) by {
                    if j < ints.len() - 1 {
                        assert(ints[j] == rest[j]);
                    }
                }
                assert(intent_keeps(ints, name, i));
            }
            if exists|i: int| intent_keeps(ints, name, i) {
                let i = choose|i: int| intent_keeps(ints, name, i);
                assert(i < ints.len() - 1) by {
                    if i == ints.len() - 1 {
                        assert(ints[i] == last);
                    }
                }
                assert(rest[i] == ints[i]);
                assert forall|j: int| i < j < rest.len() implies rest[j] != IntentV::Remove(name) by {
                    assert(rest[j] == ints[j]);
                }
                assert(intent_keeps(rest, name, i));
            }
        }
    }
}

/// Pushes an install intent for every accumulated name that the
/// command's words contain.
fn push_install_intents(words: &Vec<String>, pkgs: &Vec<String>, out: &mut Vec<Intent>)
    ensures
        final(out).deep_view() == old(out).deep_view() + intents_install(
            named_of(pkgs.deep_view(), words.deep_view()),
        ),
{
    let ghost w = words.deep_view();
    let ghost pv = pkgs.deep_view();
    let n = pkgs.len();
    proof {
        assert(pv.take(0) =~= Seq::<Seq<char>>::empty());
        assert(intents_install(named_of(pv.take(0), w)) =~= Seq::<IntentV>::empty());
        assert(out.deep_view() =~~= old(out).deep_view() + intents_install(
            named_of(pv.take(0), w),
        ));
    }
    let mut k: usize = 0;
    while k < n
        invariant
            k <= n,
            n == pkgs@.len(),
            w == words.deep_view(),
            pv == pkgs.deep_view(),
            out.deep_view() == old(out).deep_view() + intents_install(named_of(pv.take(k as int), w)),
        decreases n - k,
    {
        proof {
            assert(pv.take(k + 1).drop_last() =~= pv.take(k as int));
            assert(pv.take(k + 1).last() == pv[k as int]);
            assert(pkgs@[k as int]@ == pv[k as int]);
        }
        let p = &pkgs[k];
        if crate::strutil::contains_str(words, p) {
            let ghost pre = out.deep_view();
            out.push(Intent::Install(p.clone()));
            proof {
                assert(out.deep_view() =~~= pre.push(IntentV::Install(pv[k as int])));
                assert(named_of(pv.take(k + 1), w) == named_of(pv.take(k as int), w).push(
                    pv[k as int],
                ));
                assert(intents_install(named_of(pv.take(k + 1), w)) =~= intents_install(
                    named_of(pv.take(k as int), w),
                ).push(IntentV::Install(pv[k as int])));
                assert(out.deep_view() =~~= old(out).deep_view() + intents_install(
                    named_of(pv.take(k + 1), w),
                ));
            }
        } else {
            proof {
                assert(named_of(pv.take(k + 1), w) == named_of(pv.take(k as int), w));
            }
        }
        k += 1;
    }
    proof {
        assert(pv.take(n as int) =~= pv);
    }
}

/// Pushes a remove intent for every accumulated name that the
/// command's words contain.
fn push_remove_intents(words: &Vec<String>, pkgs: &Vec<String>, out: &mut Vec<Intent>)
    ensures
        final(out).deep_view() == old(out).deep_view() + intents_remove(
            named_of(pkgs.deep_view(), words.deep_view()),
        ),
{
    let ghost w = words.deep_view();
    let ghost pv = pkgs.deep_view();
    let n = pkgs.len();
    proof {
        assert(pv.take(0) =~= Seq::<Seq<char>>::empty());
        assert(intents_remove(named_of(pv.take(0), w)) =~= Seq::<IntentV>::empty());
        assert(out.deep_view() =~~= old(out).deep_view() + intents_remove(named_of(pv.take(0), w)));
    }
    let mut k: usize = 0;
    while k < n
        invariant
            k <= n,
            n == pkgs@.len(),
            w == words.deep_view(),
            pv == pkgs.deep_view(),
            out.deep_view() == old(out).deep_view() + intents_remove(named_of(pv.take(k as int), w)),
        decreases n - k,
    {
        proof {
            assert(pv.take(k + 1).drop_last() =~= pv.take(k as int));
            assert(pv.take(k + 1).last() == pv[k as int]);
            assert(pkgs@[k as int]@ == pv[k as int]);
        }
        let p = &pkgs[k];
        if crate::strutil::contains_str(words, p) {
            let ghost pre = out.deep_view();
            out.push(Intent::Remove(p.clone()));
            proof {
                assert(out.deep_view() =~~= pre.push(IntentV::Remove(pv[k as int])));
                assert(named_of(pv.take(k + 1), w) == named_of(pv.take(k as int), w).push(
                    pv[k as int],
                ));
                assert(intents_remove(named_of(pv.take(k + 1), w)) =~= intents_remove(
                    named_of(pv.take(k as int), w),
                ).push(IntentV::Remove(pv[k as int])));
                assert(out.deep_view() =~~= old(out).deep_view() + intents_remove(
                    named_of(pv.take(k + 1), w),
                ));
            }
        } else {
            proof {
                assert(named_of(pv.take(k + 1), w) == named_of(pv.take(k as int), w));
            }
        }
        k += 1;
    }
    proof {
        assert(pv.take(n as int) =~= pv);
    }
}

/// Removes the (sole) occurrence of `x` from a duplicate-free name
/// list, keeping the order of the rest.
fn remove_name(v: Vec<String>, x: &String) -> (res: Vec<String>)
    requires
        forall|a: int, b: int|
            0 <= a < b < v.deep_view().len() ==> v.deep_view()[a] != v.deep_view()[b],
    ensures
        forall|p: Seq<char>|
            #[trigger] res.deep_view().contains(p) <==> (v.deep_view().contains(p) && p != x@),
        forall|a: int, b: int|
            0 <= a < b < res.deep_view().len() ==> res.deep_view()[a] != res.deep_view()[b],
{
    let ghost vd = v.deep_view();
    let n = v.len();
    let mut res: Vec<String> = Vec::new();
    let mut i: usize = 0;
    proof {
        assert(vd.take(0) =~= Seq::<Seq<char>>::empty());
    }
    while i < n
        invariant
            i <= n,
            n == v@.len(),
            vd == v.deep_view(),
            forall|a: int, b: int| 0 <= a < b < vd.len() ==> vd[a] != vd[b],
            forall|p: Seq<char>|
                #[trigger] res.deep_view().contains(p) <==> (vd.take(i as int).contains(p) && p
                    != x@),
            forall|a: int, b: int|
                0 <= a < b < res.deep_view().len() ==> res.deep_view()[a] != res.deep_view()[b],
        decreases n - i,
    {
        proof {
            lemma_contains_take_step(vd, i as int);
            assert(v@[i as int]@ == vd[i as int]);
        }
        if !v[i].eq(x) {
            let ghost rpre = res.deep_view();
            res.push(v[i].clone());
            proof {
                assert(res.deep_view() =~~= rpre.push(vd[i as int]));
                lemma_contains_push(rpre, vd[i as int]);
                assert(vd[i as int] != x@);
                assert forall|p: Seq<char>| #[trigger] res.deep_view().contains(p) implies (
                vd.take(i + 1).contains(p) && p != x@) by {
                    let wr = choose|wr: int|
                        0 <= wr < res.deep_view().len() && res.deep_view()[wr] == p;
                    if wr < rpre.len() {
                        assert(rpre[wr] == p);
                        assert(rpre.contains(p));
                        assert(vd.take(i as int).contains(p));
                        let wt = choose|wt: int|
                            0 <= wt < vd.take(i as int).len() && vd.take(i as int)[wt] == p;
                        assert(vd.take(i + 1)[wt] == p);
                    } else {
                        assert(p == vd[i as int]);
                        assert(vd.take(i + 1)[i as int] == p);
                    }
                }
                assert forall|p: Seq<char>| vd.take(i + 1).contains(p) && p != x@ implies
                    res.deep_view().contains(p) by {
                    let wt = choose|wt: int| 0 <= wt < i + 1 && vd[wt] == p;
                    if wt < i {
                        assert(vd.take(i + 1)[wt] == p);
                        assert(vd.take(i as int)[wt] == p);
                        assert(vd.take(i as int).contains(p));
                        assert(rpre.contains(p));
                        let wr = choose|wr: int| 0 <= wr < rpre.len() && rpre[wr] == p;
                        assert(res.deep_view()[wr] == p);
                    } else {
                        assert(p == vd[i as int]);
                        assert(res.deep_view()[rpre.len() as int] == p);
                    }
                }
                assert(!rpre.contains(vd[i as int])) by {
                    if rpre.contains(vd[i as int]) {
                        assert(vd.take(i as int).contains(vd[i as int]));
                        let wt = choose|wt: int|
                            0 <= wt < vd.take(i as int).len() && vd.take(i as int)[wt] == vd[i as int];
                        assert(vd[wt] == vd[i as int]);
                    }
                }
                assert forall|a: int, b: int|
                    0 <= a < b < res.deep_view().len() implies res.deep_view()[a]
                    != res.deep_view()[b] by {
                    if b < rpre.len() {
                    } else {
                        assert(res.deep_view()[b] == vd[i as int]);
                        assert(res.deep_view()[a] == rpre[a]);
                        if rpre[a] == vd[i as int] {
                            assert(rpre.contains(vd[i as int]));
                        }
                    }
                }
            }
        } else {
            proof {
                assert(vd[i as int] == x@);
                assert forall|p: Seq<char>| #[trigger] res.deep_view().contains(p) implies (
                vd.take(i + 1).contains(p) && p != x@) by {
                    assert(vd.take(i as int).contains(p));
                    assert(vd.take(i + 1).contains(p));
                }
                assert forall|p: Seq<char>| vd.take(i + 1).contains(p) && p != x@ implies
                    res.deep_view().contains(p) by {
                    assert(vd.take(i as int).contains(p) || p == vd[i as int]);
                }
            }
        }
        i += 1;
    }
    proof {
        assert(vd.take(n as int) =~= vd);
    }
    res
}

/// The intentional-package reconciler: determines, by replaying the
/// log backward and then forward, which packages are currently
/// present because some command named them, and flags each with
/// whether it was never removed.  Each present name appears exactly
/// once; the flag is `true` for a package no command ever removed by
/// name.
#[verifier::rlimit(50)]
pub fn intentional(events: &Vec<Event>) -> (res: Vec<(String, bool)>)
    ensures
        forall|t: int|
            0 <= t < res@.len() ==> reconciled(events.deep_view()).current.contains(
                #[trigger] res@[t].0@,
            ) && (res@[t].1 <==> !reconciled(events.deep_view()).removed.contains(res@[t].0@)),
        forall|a: int, b: int| 0 <= a < b < res@.len() ==> res@[a].0@ != res@[b].0@,
        forall|p: Seq<char>|
            #[trigger] reconciled(events.deep_view()).current.contains(p) ==> exists|t: int|
                0 <= t < res@.len() && res@[t].0@ == p,
{
    let ghost dv = events.deep_view();
    let ghost goal = intent_records(dv);
    let len = events.len();
    proof {
        assert(dv.len() == len);
    }

    // backward pass: gather the tagged intent records
    let mut inst: Vec<String> = Vec::new();
    let mut rem: Vec<String> = Vec::new();
    let mut irlines: Vec<Intent> = Vec::new();
    let mut idx: usize = len;
    proof {
        assert(inst.deep_view() =~= Seq::<Seq<char>>::empty());
        assert(rem.deep_view() =~= Seq::<Seq<char>>::empty());
        assert(irlines.deep_view().reverse() =~= Seq::<IntentV>::empty());
        assert(dv.take(len as int) =~= dv);
        assert(intents_rec(dv.take(len as int), inst.deep_view(), rem.deep_view())
            + irlines.deep_view().reverse() =~= goal);
    }
    while idx > 0
        invariant
            idx <= len,
            len == dv.len(),
            dv == events.deep_view(),
            intents_rec(dv.take(idx as int), inst.deep_view(), rem.deep_view())
                + irlines.deep_view().reverse() == goal,
        decreases idx,
    {
        let ghost acc_i0 = inst.deep_view();
        let ghost acc_r0 = rem.deep_view();
        idx -= 1;
        proof {
            assert(dv.take(idx + 1).drop_last() =~= dv.take(idx as int));
            assert(dv.take(idx + 1).last() == dv[idx as int]);
            assert(events@[idx as int]@ == dv[idx as int]);
        }
        match &events[idx] {
            Event::Command(_, command) => {
                proof {
                    assert(dv[idx as int] matches EventV::Command(_, c) && c == command@);
                }
                let ghost w = split_spaces(command@);
                let ghost ir0 = irlines.deep_view();
                let words = crate::strutil::split_line(command.as_str());
                push_install_intents(&words, &inst, &mut irlines);
                push_remove_intents(&words, &rem, &mut irlines);
                inst = Vec::new();
                rem = Vec::new();
                proof {
                    let ii = intents_install(named_of(acc_i0, w));
                    let rr = intents_remove(named_of(acc_r0, w));
                    assert(irlines.deep_view() == (ir0 + ii) + rr);
                    lemma_reverse_add(ir0 + ii, rr);
                    lemma_reverse_add(ir0, ii);
                    assert(rr.reverse() =~= intents_remove(named_of(acc_r0, w).reverse()));
                    assert(ii.reverse() =~= intents_install(named_of(acc_i0, w).reverse()));
                    assert(irlines.deep_view().reverse() =~~= command_intents(acc_i0, acc_r0, w)
                        + ir0.reverse());
                    assert(inst.deep_view() =~= Seq::<Seq<char>>::empty());
                    assert(rem.deep_view() =~= Seq::<Seq<char>>::empty());
                    assert(intents_rec(dv.take(idx + 1), acc_i0, acc_r0) == intents_rec(
                        dv.take(idx as int),
                        Seq::empty(),
                        Seq::empty(),
                    ) + command_intents(acc_i0, acc_r0, w));
                    assert(intents_rec(dv.take(idx as int), inst.deep_view(), rem.deep_view())
                        + irlines.deep_view().reverse() =~~= goal);
                }
            },
            Event::Installed(_, name, _) => {
                proof {
                    assert(dv[idx as int] matches EventV::Installed(_, nv, _) && nv == name@);
                }
                inst.push(name.clone());
                proof {
                    assert(inst.deep_view() =~~= acc_i0.push(name@));
                }
            },
            Event::Removed(_, name, _) => {
                proof {
                    assert(dv[idx as int] matches EventV::Removed(_, nv, _) && nv == name@);
                }
                rem.push(name.clone());
                proof {
                    assert(rem.deep_view() =~~= acc_r0.push(name@));
                }
            },
            Event::Upgraded(_, _, _) => {},
            Event::Downgraded(_, _, _) => {},
        }
    }
    proof {
        assert(dv.take(0) =~= Seq::<EventV>::empty());
        assert(intents_rec(dv.take(0), inst.deep_view(), rem.deep_view()) =~= Seq::<IntentV>::empty());
        assert(irlines.deep_view().reverse() == goal);
    }

    // forward replay of the intent records
    let ghost ints = irlines.deep_view().reverse();
    let mut current: Vec<String> = Vec::new();
    let mut removed: Vec<String> = Vec::new();
    let irlen = irlines.len();
    let ghost mut k: int = 0;
    let mut pos: usize = irlen;
    proof {
        assert(ints.take(0) =~= Seq::<IntentV>::empty());
    }
    while pos > 0
        invariant
            pos <= irlen,
            irlen == irlines@.len(),
            ints == irlines.deep_view().reverse(),
            ints.len() == irlen,
            k == irlen - pos,
            forall|p: Seq<char>|
                #[trigger] current.deep_view().contains(p) <==> replay(
                    ints.take(k),
                ).current.contains(p),
            forall|p: Seq<char>|
                #[trigger] removed.deep_view().contains(p) <==> replay(
                    ints.take(k),
                ).removed.contains(p),
            forall|a: int, b: int|
                0 <= a < b < current.deep_view().len() ==> current.deep_view()[a]
                    != current.deep_view()[b],
            forall|a: int, b: int|
                0 <= a < b < removed.deep_view().len() ==> removed.deep_view()[a]
                    != removed.deep_view()[b],
        decreases pos,
    {
        pos -= 1;
        proof {
            assert(ints[k] == irlines.deep_view()[pos as int]);
            assert(irlines@[pos as int]@ == irlines.deep_view()[pos as int]);
            assert(ints.take(k + 1).drop_last() =~= ints.take(k));
            assert(ints.take(k + 1).last() == ints[k]);
        }
        match &irlines[pos] {
            Intent::Install(name) => {
                proof {
                    assert(ints[k] == IntentV::Install(name@));
                    assert(replay(ints.take(k + 1)).current == replay(
                        ints.take(k),
                    ).current.insert(name@));
                    assert(replay(ints.take(k + 1)).removed == replay(ints.take(k)).removed);
                }
                let ghost cpre = current.deep_view();
                let present = crate::strutil::contains_str(&current, name);
                if !present {
                    current.push(name.clone());
                    proof {
                        assert(current.deep_view() =~~= cpre.push(name@));
                    }
                }
                proof {
                    lemma_contains_push(cpre, name@);
                    assert forall|p: Seq<char>|
                        #[trigger] current.deep_view().contains(p) <==> replay(
                        ints.take(k + 1),
                    ).current.contains(p) by {
                        assert(cpre.contains(p) == replay(ints.take(k)).current.contains(p));
                        assert(cpre.push(name@).contains(p) == (cpre.contains(p) || p == name@));
                        assert(replay(ints.take(k + 1)).current.contains(p) == (replay(
                            ints.take(k),
                        ).current.contains(p) || p == name@));
                        if present {
                            assert(current.deep_view() == cpre);
                            assert(cpre.contains(name@));
                        } else {
                            assert(current.deep_view() == cpre.push(name@));
                        }
                    }
                    assert forall|p: Seq<char>|
                        #[trigger] removed.deep_view().contains(p) <==> replay(
                        ints.take(k + 1),
                    ).removed.contains(p) by {
                        assert(removed.deep_view().contains(p) == replay(
                            ints.take(k),
                        ).removed.contains(p));
                    }
                }
            },
            Intent::Remove(name) => {
                proof {
                    assert(ints[k] == IntentV::Remove(name@));
                    assert(replay(ints.take(k + 1)).current == replay(
                        ints.take(k),
                    ).current.remove(name@));
                    assert(replay(ints.take(k + 1)).removed == replay(
                        ints.take(k),
                    ).removed.insert(name@));
                }
                let ghost cpre = current.deep_view();
                current = remove_name(current, name);
                let ghost rpre = removed.deep_view();
                let rpresent = crate::strutil::contains_str(&removed, name);
                if !rpresent {
                    removed.push(name.clone());
                    proof {
                        assert(removed.deep_view() =~~= rpre.push(name@));
                    }
                }
                proof {
                    lemma_contains_push(rpre, name@);
                    assert forall|p: Seq<char>|
                        #[trigger] current.deep_view().contains(p) <==> replay(
                        ints.take(k + 1),
                    ).current.contains(p) by {
                        assert(cpre.contains(p) == replay(ints.take(k)).current.contains(p));
                        assert(current.deep_view().contains(p) == (cpre.contains(p) && p != name@));
                        assert(replay(ints.take(k + 1)).current.contains(p) == (replay(
                            ints.take(k),
                        ).current.contains(p) && p != name@));
                    }
                    assert forall|p: Seq<char>|
                        #[trigger] removed.deep_view().contains(p) <==> replay(
                        ints.take(k + 1),
                    ).removed.contains(p) by {
                        assert(rpre.contains(p) == replay(ints.take(k)).removed.contains(p));
                        assert(rpre.push(name@).contains(p) == (rpre.contains(p) || p == name@));
                        assert(replay(ints.take(k + 1)).removed.contains(p) == (replay(
                            ints.take(k),
                        ).removed.contains(p) || p == name@));
                        if rpresent {
                            assert(removed.deep_view() == rpre);
                            assert(rpre.contains(name@));
                        } else {
                            assert(removed.deep_view() == rpre.push(name@));
                        }
                    }
                }
            },
        }
        proof {
            k = k + 1;
        }
    }
    proof {
        assert(ints.take(k) =~= ints);
        assert(ints == goal);
    }

    // flag each present package with whether it was never removed
    let mut res: Vec<(String, bool)> = Vec::new();
    let cn = current.len();
    let mut i: usize = 0;
    while i < cn
        invariant
            i <= cn,
            cn == current@.len(),
            res@.len() == i,
            forall|t: int|
                0 <= t < i ==> (#[trigger] res@[t].0)@ == current.deep_view()[t],
            forall|t: int|
                0 <= t < i ==> ((#[trigger] res@[t].1) <==> !replay(ints).removed.contains(
                    current.deep_view()[t],
                )),
            forall|p: Seq<char>|
                #[trigger] current.deep_view().contains(p) <==> replay(ints).current.contains(p),
            forall|p: Seq<char>|
                #[trigger] removed.deep_view().contains(p) <==> replay(ints).removed.contains(p),
            forall|a: int, b: int|
                0 <= a < b < current.deep_view().len() ==> current.deep_view()[a]
                    != current.deep_view()[b],
            ints == goal,
        decreases cn - i,
    {
        proof {
            assert(current@[i as int]@ == current.deep_view()[i as int]);
        }
        let flag = !crate::strutil::contains_str(&removed, &current[i]);
        let entry = (current[i].clone(), flag);
        res.push(entry);
        i += 1;
    }
    proof {
        assert(reconciled(dv) == replay(ints));
        assert forall|t: int|
            0 <= t < res@.len() implies reconciled(dv).current.contains(#[trigger] res@[t].0@) && (
        res@[t].1 <==> !reconciled(dv).removed.contains(res@[t].0@)) by {
            assert(res@[t].0@ == current.deep_view()[t]);
            assert(current.deep_view().contains(current.deep_view()[t]));
        }
        assert forall|p: Seq<char>|
            #[trigger] reconciled(dv).current.contains(p) implies exists|t: int|
            0 <= t < res@.len() && res@[t].0@ == p by {
            assert(current.deep_view().contains(p) <==> replay(ints).current.contains(p));
            let wt = choose|wt: int|
                0 <= wt < current.deep_view().len() && current.deep_view()[wt] == p;
            assert(res@[wt].0@ == p);
        }
    }
    res
}

} // verus!
