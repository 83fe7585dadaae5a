//! The archetype graph: owns every archetype, routes component sets to
//! archetypes by walking and growing the graph from the root, prunes empty
//! leaves, and keeps the inverted index in step.

use vstd::prelude::*;

use crate::archetype::{copy_bytes, edges_contain, edges_lookup, Archetype, ArchetypeId};
use crate::component::{ComponentDesc, ComponentKey, Entity};
use crate::error::Error;
use crate::events::Subscriber;
use crate::index::{concrete_key, ArchetypeIndex};

verus! {

/// How many archetypes are live in the store.
pub open spec fn live_count(s: Seq<Option<Archetype>>) -> nat
    decreases s.len(),
{
    if s.len() == 0 {
        0
    } else {
        (if s[0] is Some {
            1nat
        } else {
            0nat
        }) + live_count(s.skip(1))
    }
}

/// Live counts agree on stores with pointwise equal liveness.
proof fn lemma_live_count_congruent(s1: Seq<Option<Archetype>>, s2: Seq<Option<Archetype>>)
    requires
        s1.len() == s2.len(),
        forall|i: int| 0 <= i < s1.len() ==> ((#[trigger] s1[i]) is Some <==> s2[i] is Some),
    ensures
        live_count(s1) == live_count(s2),
    decreases s1.len(),
{
    if s1.len() > 0 {
        assert forall|i: int|
            0 <= i < s1.skip(1).len() implies ((#[trigger] s1.skip(1)[i]) is Some <==> s2.skip(
            1,
        )[i] is Some) by {
            assert(s1.skip(1)[i] == s1[i + 1]);
            assert(s2.skip(1)[i] == s2[i + 1]);
        }
        lemma_live_count_congruent(s1.skip(1), s2.skip(1));
    }
}

/// Despawning one live archetype lowers the live count by one.
proof fn lemma_live_count_update_none(s: Seq<Option<Archetype>>, i: int)
    requires
        0 <= i < s.len(),
        s[i] is Some,
    ensures
        live_count(s.update(i, Option::None)) + 1 == live_count(s),
    decreases s.len(),
{
    if i == 0 {
        assert(s.update(0, Option::<Archetype>::None).skip(1) =~= s.skip(1));
    } else {
        assert(s.update(i, Option::<Archetype>::None).skip(1) =~= s.skip(1).update(
            i - 1,
            Option::None,
        ));
        lemma_live_count_update_none(s.skip(1), i - 1);
    }
}

/// A live count never exceeds the store length.
proof fn lemma_live_count_le_len(s: Seq<Option<Archetype>>)
    ensures
        live_count(s) <= s.len(),
    decreases s.len(),
{
    if s.len() > 0 {
        lemma_live_count_le_len(s.skip(1));
    }
}

/// Pushing a live archetype raises the live count by one.
proof fn lemma_live_count_push(s: Seq<Option<Archetype>>, a: Archetype)
    ensures
        live_count(s.push(Option::Some(a))) == live_count(s) + 1,
    decreases s.len(),
{
    reveal_with_fuel(live_count, 3);
    if s.len() == 0 {
        assert(s.push(Option::Some(a))[0] == Option::Some(a));
        assert(s.push(Option::Some(a)).skip(1) =~= Seq::<Option<Archetype>>::empty());
    } else {
        assert(s.push(Option::Some(a))[0] == s[0]);
        assert(s.push(Option::Some(a)).skip(1) =~= s.skip(1).push(Option::Some(a)));
        lemma_live_count_push(s.skip(1), a);
    }
}

/// Whether a subscriber wants an archetype: every required key is present.
pub open spec fn arch_matches(a: Archetype, s: Subscriber) -> bool {
    forall|i: int| 0 <= i < s.spec_required().len() ==> a.spec_has(#[trigger] s.spec_required()[i])
}

/// The generation counter after `n` more wrapping increments.
pub open spec fn gen_after(g: u32, n: nat) -> u32
    decreases n,
{
    if n == 0 {
        g
    } else {
        gen_after(
            if g == u32::MAX {
                0u32
            } else {
                (g + 1) as u32
            },
            (n - 1) as nat,
        )
    }
}

/// Wrapping increments compose.
proof fn lemma_gen_after_compose(g: u32, a: nat, b: nat)
    ensures
        gen_after(gen_after(g, a), b) == gen_after(g, a + b),
    decreases a,
{
    if a > 0 {
        lemma_gen_after_compose(
            if g == u32::MAX {
                0u32
            } else {
                (g + 1) as u32
            },
            (a - 1) as nat,
            b,
        );
    }
}

/// Extends a sorted component set with one descriptor: existing entries stay
/// in order, an entry with the same key is replaced, and when the new
/// component is an exclusive relation every other instance of its relation
/// id is dropped.
fn extend_components(base: &Vec<ComponentDesc>, head: ComponentDesc) -> (r: Vec<ComponentDesc>)
    requires
        forall|i: int, j: int|
            #![trigger base@[i], base@[j]]
            0 <= i < j < base@.len() ==> base@[i].key.spec_lt(base@[j].key),
    ensures
        r@.len() <= base@.len() + 1,
        forall|i: int, j: int|
            #![trigger r@[i], r@[j]]
            0 <= i < j < r@.len() ==> r@[i].key.spec_lt(r@[j].key),
        exists|i: int| 0 <= i < r@.len() && #[trigger] r@[i] == head,
        forall|i: int|
            0 <= i < r@.len() ==> #[trigger] r@[i] == head || base@.contains(r@[i]),
        // the exclusive-relation rule: at most this one instance of the
        // relation id remains
        (head.key.object is Some && head.exclusive) ==> forall|i: int|
            0 <= i < r@.len() && (#[trigger] r@[i]).key.id == head.key.id ==> r@[i].key
                == head.key,
        // nothing else is dropped: every other entry of the base set stays
        forall|z: int|
            0 <= z < base@.len() && (#[trigger] base@[z]).key != head.key && !(head.key.object
                is Some && head.exclusive && base@[z].key.id == head.key.id) ==> r@.contains(
                base@[z],
            ),
{
    let drop_same_id = head.key.object.is_some() && head.exclusive;
    let mut out: Vec<ComponentDesc> = Vec::new();
    let mut u: usize = 0;
    let mut placed = false;
    while u < base.len()
        invariant
            u <= base@.len(),
            out@.len() <= u as int + (if placed {
                1int
            } else {
                0int
            }),
            forall|i: int, j: int|
                #![trigger base@[i], base@[j]]
                0 <= i < j < base@.len() ==> base@[i].key.spec_lt(base@[j].key),
            drop_same_id == (head.key.object is Some && head.exclusive),
            forall|i: int, j: int|
                #![trigger out@[i], out@[j]]
                0 <= i < j < out@.len() ==> out@[i].key.spec_lt(out@[j].key),
            forall|i: int|
                0 <= i < out@.len() ==> #[trigger] out@[i] == head || exists|z: int|
                    0 <= z < u as int && out@[i] == base@[z],
            placed ==> exists|i: int| 0 <= i < out@.len() && #[trigger] out@[i] == head,
            !placed ==> forall|i: int|
                0 <= i < out@.len() ==> (#[trigger] out@[i]).key.spec_lt(head.key),
            placed ==> forall|z: int|
                u as int <= z < base@.len() ==> !(#[trigger] base@[z]).key.spec_lt(head.key),
            drop_same_id ==> forall|i: int|
                0 <= i < out@.len() && (#[trigger] out@[i]).key.id == head.key.id ==> out@[i].key
                    == head.key,
            forall|z: int|
                0 <= z < u as int && (#[trigger] base@[z]).key != head.key && !(drop_same_id
                    && base@[z].key.id == head.key.id) ==> out@.contains(base@[z]),
        decreases base@.len() - u,
    {
        let d = base[u];
        let ghost out0 = out@;
        if !placed && !d.key.lt(&head.key) {
            out.push(head);
            placed = true;
            proof {
                assert(out@.last() == head);
                assert forall|i: int, j: int|
                    #![trigger out@[i], out@[j]]
                    0 <= i < j < out@.len() implies out@[i].key.spec_lt(out@[j].key) by {
                    assert(out@[i] == out0[i]);
                    if j < out@.len() - 1 {
                        assert(out@[j] == out0[j]);
                    }
                }
                assert forall|z: int|
                    u as int <= z < base@.len() implies !(#[trigger] base@[z]).key.spec_lt(
                    head.key,
                ) by {
                    if z > u as int {
                        assert(base@[u as int].key.spec_lt(base@[z].key));
                    }
                }
            }
        }
        let ghost out1 = out@;
        let ghost placed1 = placed;
        let keep = if d.key == head.key {
            false
        } else if drop_same_id && d.key.id == head.key.id {
            false
        } else {
            true
        };
        if keep {
            out.push(d);
            proof {
                assert(base@[u as int] == d);
                if placed1 {
                    let w = choose|w: int| 0 <= w < out1.len() && out1[w] == head;
                    assert(out@[w] == head);
                }
                assert forall|i: int, j: int|
                    #![trigger out@[i], out@[j]]
                    0 <= i < j < out@.len() implies out@[i].key.spec_lt(out@[j].key) by {
                    assert(out@[i] == out1[i]);
                    if j < out@.len() - 1 {
                        assert(out@[j] == out1[j]);
                    } else {
                        assert(out@[j] == d);
                        if out1[i] == head {
                            assert(placed1);
                            assert(!d.key.spec_lt(head.key));
                            assert(d.key != head.key);
                        } else {
                            let z = choose|z: int| 0 <= z < u as int && out1[i] == base@[z];
                            assert(base@[z].key.spec_lt(base@[u as int].key));
                        }
                    }
                }
                assert forall|i: int|
                    0 <= i < out@.len() implies #[trigger] out@[i] == head || exists|z: int|
                        0 <= z < u as int + 1 && out@[i] == base@[z] by {
                    if i < out@.len() - 1 {
                        assert(out@[i] == out1[i]);
                        if out1[i] != head {
                            let z = choose|z: int| 0 <= z < u as int && out1[i] == base@[z];
                        }
                    } else {
                        assert(out@[i] == base@[u as int]);
                    }
                }
            }
        }
        proof {
            assert forall|z: int|
                0 <= z < u as int + 1 && (#[trigger] base@[z]).key != head.key && !(drop_same_id
                    && base@[z].key.id == head.key.id) implies out@.contains(base@[z]) by {
                if z < u as int {
                    let i = choose|i: int| 0 <= i < out0.len() && out0[i] == base@[z];
                    assert(out1[i] == out0[i]);
                    if keep {
                        assert(out@[i] == out1[i]);
                    } else {
                        assert(out@ == out1);
                    }
                } else {
                    assert(keep);
                    assert(out@.last() == base@[u as int]);
                }
            }
        }
        u = u + 1;
    }
    if !placed {
        let ghost outp = out@;
        out.push(head);
        proof {
            assert(out@.last() == head);
            assert forall|z: int|
                0 <= z < base@.len() && (#[trigger] base@[z]).key != head.key && !(drop_same_id
                    && base@[z].key.id == head.key.id) implies out@.contains(base@[z]) by {
                let i = choose|i: int| 0 <= i < outp.len() && outp[i] == base@[z];
                assert(out@[i] == outp[i]);
            }
        }
    }
    proof {
        assert forall|i: int|
            0 <= i < out@.len() implies #[trigger] out@[i] == head || base@.contains(out@[i]) by {
            if out@[i] != head {
                let z = choose|z: int| 0 <= z < base@.len() && out@[i] == base@[z];
            }
        }
    }
    out
}


/// Whether the descriptor `h`, when added to a component set, drops `d`:
/// `h` is an exclusive relation of the same relation id but another key.
pub open spec fn knocked_by(d: ComponentDesc, h: ComponentDesc) -> bool {
    h.key.object is Some && h.exclusive && d.key.id == h.key.id && d.key != h.key
}

/// The requested descriptor at `u` survives the descriptors requested
/// after it, up to (excluding) `upto`: none of them drops it.
pub open spec fn fc_survives(components: Seq<ComponentDesc>, u: int, upto: int) -> bool {
    forall|v: int| u < v < upto ==> !knocked_by(components[u], #[trigger] components[v])
}

/// Compares two descriptor lists element by element.
fn descs_equal(a: &Vec<ComponentDesc>, b: &Vec<ComponentDesc>) -> (r: bool)
    ensures
        r <==> (a@ =~= b@),
{
    if a.len() != b.len() {
        return false;
    }
    let mut i: usize = 0;
    while i < a.len()
        invariant
            a@.len() == b@.len(),
            i <= a@.len(),
            forall|k: int| 0 <= k < i as int ==> #[trigger] a@[k] == b@[k],
        decreases a@.len() - i,
    {
        if !(a[i] == b[i]) {
            return false;
        }
        i = i + 1;
    }
    true
}

/// One walking step keeps the derived-set description: a sorted set holding
/// exactly the descriptors of the first `t` requested components that
/// survive up to `t`, once extended by component `t` under the
/// exclusive-relation rule, holds exactly the survivors of the first
/// `t + 1`.
proof fn lemma_extend_inv(
    base: Seq<ComponentDesc>,
    next: Seq<ComponentDesc>,
    components: Seq<ComponentDesc>,
    t: int,
)
    requires
        0 <= t < components.len(),
        forall|i: int, j: int|
            #![trigger components[i], components[j]]
            0 <= i < j < components.len() ==> components[i].key.spec_lt(components[j].key),
        forall|i: int, j: int|
            #![trigger next[i], next[j]]
            0 <= i < j < next.len() ==> next[i].key.spec_lt(next[j].key),
        exists|c: int| 0 <= c < next.len() && #[trigger] next[c] == components[t],
        forall|c: int|
            0 <= c < next.len() ==> #[trigger] next[c] == components[t] || base.contains(next[c]),
        (components[t].key.object is Some && components[t].exclusive) ==> forall|c: int|
            0 <= c < next.len() && (#[trigger] next[c]).key.id == components[t].key.id
                ==> next[c].key == components[t].key,
        forall|z: int|
            0 <= z < base.len() && (#[trigger] base[z]).key != components[t].key && !(components[
                t
            ].key.object is Some && components[t].exclusive && base[z].key.id == components[
                t
            ].key.id) ==> next.contains(base[z]),
        forall|d: ComponentDesc|
            #![trigger base.contains(d)]
            base.contains(d) <==> exists|u: int|
                0 <= u < t && #[trigger] components[u] == d && fc_survives(components, u, t),
    ensures
        forall|d: ComponentDesc|
            #![trigger next.contains(d)]
            next.contains(d) <==> exists|u: int|
                0 <= u < t + 1 && #[trigger] components[u] == d && fc_survives(
                    components,
                    u,
                    t + 1,
                ),
{
    let head = components[t];
    assert forall|d: ComponentDesc| #![trigger next.contains(d)] next.contains(d) implies exists|
        u: int,
    |
        0 <= u < t + 1 && #[trigger] components[u] == d && fc_survives(
            components,
            u,
            t + 1,
        ) by {
        let c = choose|c: int| 0 <= c < next.len() && #[trigger] next[c] == d;
        if d == head {
            assert(components[t] == d && fc_survives(components, t, t + 1));
        } else {
            assert(base.contains(d));
            let u = choose|u: int|
                0 <= u < t && #[trigger] components[u] == d && fc_survives(components, u, t);
            assert(fc_survives(components, u, t + 1)) by {
                assert forall|v: int| u < v < t + 1 implies !knocked_by(
                    components[u],
                    #[trigger] components[v],
                ) by {
                    if v == t {
                        if knocked_by(d, head) {
                            assert(d.key == head.key);
                            let ch = choose|ch: int|
                                0 <= ch < next.len() && #[trigger] next[ch] == head;
                            if c < ch {
                                assert(next[c].key.spec_lt(next[ch].key));
                            } else if ch < c {
                                assert(next[ch].key.spec_lt(next[c].key));
                            }
                            assert(false);
                        }
                    }
                }
            }
        }
    }
    assert forall|u: int|
        0 <= u < t + 1 && fc_survives(components, u, t + 1) implies next.contains(
        components[u],
    ) by {
        if u == t {
            let c = choose|c: int| 0 <= c < next.len() && #[trigger] next[c] == head;
            assert(next.contains(head));
        } else {
            assert(fc_survives(components, u, t)) by {
                assert forall|v: int| u < v < t implies !knocked_by(
                    components[u],
                    #[trigger] components[v],
                ) by {}
            }
            assert(base.contains(components[u]));
            let z = choose|z: int| 0 <= z < base.len() && #[trigger] base[z] == components[u];
            assert(components[u].key.spec_lt(components[t].key));
            assert(components[u].key != head.key);
            assert(!knocked_by(components[u], components[t]));
            assert(next.contains(base[z]));
        }
    }
    assert forall|d: ComponentDesc| #![trigger next.contains(d)] (exists|u: int|
        0 <= u < t + 1 && #[trigger] components[u] == d && fc_survives(
            components,
            u,
            t + 1,
        )) implies next.contains(d) by {
        let u = choose|u: int|
            0 <= u < t + 1 && #[trigger] components[u] == d && fc_survives(
                components,
                u,
                t + 1,
            );
        assert(next.contains(components[u]));
    }
}

/// When no exclusive relation of the base set interferes, the survivors of
/// the extended list are the head and the base entries the head does not
/// replace or drop.
proof fn lemma_extend_survivors(base: Seq<ComponentDesc>, el: Seq<ComponentDesc>, head: ComponentDesc)
    requires
        forall|i: int, j: int|
            #![trigger el[i], el[j]]
            0 <= i < j < el.len() ==> el[i].key.spec_lt(el[j].key),
        exists|c: int| 0 <= c < el.len() && #[trigger] el[c] == head,
        forall|c: int| 0 <= c < el.len() ==> #[trigger] el[c] == head || base.contains(el[c]),
        (head.key.object is Some && head.exclusive) ==> forall|c: int|
            0 <= c < el.len() && (#[trigger] el[c]).key.id == head.key.id ==> el[c].key
                == head.key,
        forall|z: int|
            0 <= z < base.len() && (#[trigger] base[z]).key != head.key && !(head.key.object
                is Some && head.exclusive && base[z].key.id == head.key.id) ==> el.contains(
                base[z],
            ),
        forall|c: int| 0 <= c < base.len() ==> !knocked_by(head, #[trigger] base[c]),
        forall|c1: int, c2: int|
            #![trigger base[c1], base[c2]]
            0 <= c1 < base.len() && 0 <= c2 < base.len() ==> !knocked_by(base[c1], base[c2]),
    ensures
        forall|d: ComponentDesc|
            (exists|u: int|
                0 <= u < el.len() && #[trigger] el[u] == d && fc_survives(
                    el,
                    u,
                    el.len() as int,
                )) <==> (d == head || (base.contains(d) && d.key != head.key && !knocked_by(
                d,
                head,
            ))),
{
    let ch = choose|c: int| 0 <= c < el.len() && #[trigger] el[c] == head;
    assert forall|d: ComponentDesc|
        (exists|u: int|
            0 <= u < el.len() && #[trigger] el[u] == d && fc_survives(
                el,
                u,
                el.len() as int,
            )) implies (d == head || (base.contains(d) && d.key != head.key && !knocked_by(
        d,
        head,
    ))) by {
        let u = choose|u: int|
            0 <= u < el.len() && #[trigger] el[u] == d && fc_survives(el, u, el.len() as int);
        if d != head {
            assert(base.contains(el[u]));
            assert(d.key != head.key) by {
                if d.key == head.key {
                    if u < ch {
                        assert(el[u].key.spec_lt(el[ch].key));
                    } else if ch < u {
                        assert(el[ch].key.spec_lt(el[u].key));
                    }
                }
            }
            assert(!knocked_by(d, head)) by {
                if knocked_by(d, head) {
                    assert(el[u].key == head.key);
                }
            }
        }
    }
    assert forall|d: ComponentDesc|
        (d == head || (base.contains(d) && d.key != head.key && !knocked_by(
            d,
            head,
        ))) implies (exists|u: int|
        0 <= u < el.len() && #[trigger] el[u] == d && fc_survives(el, u, el.len() as int)) by {
        if d == head {
            assert(fc_survives(el, ch, el.len() as int)) by {
                assert forall|v: int| ch < v < el.len() implies !knocked_by(
                    el[ch],
                    #[trigger] el[v],
                ) by {
                    if el[v] != head {
                        let z = choose|z: int| 0 <= z < base.len() && base[z] == el[v];
                        assert(!knocked_by(head, base[z]));
                    }
                }
            }
            assert(el[ch] == d);
        } else {
            let z = choose|z: int| 0 <= z < base.len() && #[trigger] base[z] == d;
            assert(el.contains(base[z]));
            let u = choose|u: int| 0 <= u < el.len() && #[trigger] el[u] == d;
            assert(fc_survives(el, u, el.len() as int)) by {
                assert forall|v: int| u < v < el.len() implies !knocked_by(
                    el[u],
                    #[trigger] el[v],
                ) by {
                    if el[v] == head {
                        assert(!knocked_by(d, head));
                    } else {
                        let z2 = choose|z2: int| 0 <= z2 < base.len() && base[z2] == el[v];
                        assert(!knocked_by(base[z], base[z2]));
                    }
                }
            }
        }
    }
}

/// What makes archetype `j` a child the walk derived: fresh and empty, one
/// incoming edge from its live parent, the parent's matching outgoing edge,
/// and a component set derived from the parent by one of the first `upto`
/// requested descriptors under the exclusive-relation rule.
#[verifier::opaque]
pub open spec fn created_from(
    s: Archetypes,
    j: int,
    components: Seq<ComponentDesc>,
    upto: int,
) -> bool {
    &&& s.spec_is_live(j as ArchetypeId)
    &&& s.spec_arch(j as ArchetypeId).spec_entities().len() == 0
    &&& s.spec_arch(j as ArchetypeId).spec_incoming().len() == 1
    &&& {
        let a = s.spec_arch(j as ArchetypeId);
        let k = a.spec_incoming()[0].0;
        let p = a.spec_incoming()[0].1;
        &&& s.spec_is_live(p)
        &&& exists|i: int|
            0 <= i < s.spec_arch(p).spec_outgoing().len() && #[trigger] s.spec_arch(
                p,
            ).spec_outgoing()[i] == (k, j as ArchetypeId)
        &&& exists|u: int|
            {
                &&& 0 <= u < upto <= components.len()
                &&& (#[trigger] components[u]).key == k
                &&& a.spec_has(k)
                &&& forall|c: int|
                    0 <= c < a.spec_components().len() ==> (#[trigger] a.spec_components()[c])
                        == components[u] || s.spec_arch(p).spec_components().contains(
                        a.spec_components()[c],
                    )
                &&& forall|c: int|
                    0 <= c < s.spec_arch(p).spec_components().len() ==> {
                        let d = #[trigger] s.spec_arch(p).spec_components()[c];
                        d.key == k || (components[u].key.object is Some && components[u].exclusive
                            && d.key.id == k.id) || a.spec_components().contains(d)
                    }
                &&& (components[u].key.object is Some && components[u].exclusive) ==> forall|
                    c: int,
                |
                    0 <= c < a.spec_components().len() && (#[trigger] a.spec_components()[
                        c
                    ]).key.id == k.id ==> a.spec_components()[c].key == k
            }
    }
    // the child is registered in the index: a record per component key and
    // a backed record per wildcard
    &&& forall|k: ComponentKey|
        crate::index::concrete_key(k) ==> (crate::index::idx_contains(
            s.spec_index().spec_entries(),
            k,
            j as ArchetypeId,
        ) <==> s.spec_arch(j as ArchetypeId).spec_has(k))
    &&& forall|k: ComponentKey|
        #![trigger crate::index::idx_backed(s.spec_index().spec_entries(), k, j as ArchetypeId)]
        crate::index::is_wildcard_of(&s.spec_arch(j as ArchetypeId), k)
            ==> crate::index::idx_backed(s.spec_index().spec_entries(), k, j as ArchetypeId)
    // every matching subscriber of the global list is attached to the child
    &&& forall|q: int|
        0 <= q < s.spec_subscribers().len() && arch_matches(
            s.spec_arch(j as ArchetypeId),
            #[trigger] s.spec_subscribers()[q],
        ) ==> exists|w: int|
            0 <= w < s.spec_arch(j as ArchetypeId).spec_subscribers().len() && (#[trigger] s
                .spec_arch(j as ArchetypeId).spec_subscribers()[w]).spec_required() == s
                .spec_subscribers()[q].spec_required() && s.spec_arch(
                j as ArchetypeId,
            ).spec_subscribers()[w].spec_connected() == s.spec_subscribers()[q].spec_connected()
}

/// Owns every archetype: the root (no components), the reserved archetype
/// for entities pending their first spawn, the lazily grown graph, the
/// registered subscribers, and the inverted index.
pub struct Archetypes {
    root: ArchetypeId,
    reserved: ArchetypeId,
    gen: u32,
    inner: Vec<Option<Archetype>>,
    subscribers: Vec<Subscriber>,
    index: ArchetypeIndex,
}

impl Archetypes {
    pub closed spec fn spec_inner(&self) -> Seq<Option<Archetype>> {
        self.inner@
    }

    pub closed spec fn spec_root(&self) -> ArchetypeId {
        self.root
    }

    pub closed spec fn spec_reserved(&self) -> ArchetypeId {
        self.reserved
    }

    pub closed spec fn spec_gen(&self) -> u32 {
        self.gen
    }

    pub closed spec fn spec_index(&self) -> ArchetypeIndex {
        self.index
    }

    pub open spec fn spec_is_live(&self, id: ArchetypeId) -> bool {
        id < self.spec_inner().len() && self.spec_inner()[id as int] is Some
    }

    pub open spec fn spec_arch(&self, id: ArchetypeId) -> Archetype {
        self.spec_inner()[id as int]->Some_0
    }

    /// An archetype the pruner removes: live, empty, without outgoing
    /// edges, and neither root nor reserved.
    pub open spec fn spec_prunable(&self, id: ArchetypeId) -> bool {
        &&& self.spec_is_live(id)
        &&& id != self.spec_root()
        &&& id != self.spec_reserved()
        &&& self.spec_arch(id).spec_len() == 0
        &&& self.spec_arch(id).spec_outgoing().len() == 0
    }

    /// Root and reserved archetypes always exist, every live archetype is
    /// internally well-formed, and the index is well-formed with records
    /// only for live archetypes.
    pub open spec fn wf(&self) -> bool {
        &&& self.spec_root() == 0
        &&& self.spec_reserved() == 1
        &&& self.spec_inner().len() >= 2
        &&& self.spec_inner()[0] is Some
        &&& self.spec_inner()[1] is Some
        &&& forall|i: int|
            0 <= i < self.spec_inner().len() && (#[trigger] self.spec_inner()[i]) is Some
                ==> self.spec_inner()[i]->Some_0.wf()
        &&& forall|i: int, c: int|
            #![trigger self.spec_inner()[i]->Some_0.spec_components()[c]]
            0 <= i < self.spec_inner().len() && self.spec_inner()[i] is Some && 0 <= c
                < self.spec_inner()[i]->Some_0.spec_components().len() ==> concrete_key(
                self.spec_inner()[i]->Some_0.spec_components()[c].key,
            )
        &&& self.spec_index().wf()
        &&& forall|i: int|
            0 <= i < self.spec_index().spec_entries().len() ==> self.spec_is_live(
                (#[trigger] self.spec_index().spec_entries()[i]).arch_id,
            )
    }

    pub fn new() -> (r: Archetypes)
        ensures
            r.wf(),
            r.spec_inner().len() == 2,
            r.spec_gen() == 2,
            r.spec_root() != r.spec_reserved(),
            r.spec_arch(0).spec_components() == Seq::<ComponentDesc>::empty(),
            r.spec_arch(0).spec_entities().len() == 0,
            r.spec_arch(1).spec_components() == Seq::<ComponentDesc>::empty(),
            r.spec_arch(1).spec_entities().len() == 0,
            r.spec_index().spec_entries() == Seq::<crate::index::IndexEntry>::empty(),
    {
        let mut inner: Vec<Option<Archetype>> = Vec::new();
        inner.push(Some(Archetype::empty()));
        inner.push(Some(Archetype::empty()));
        Archetypes {
            root: 0,
            reserved: 1,
            gen: 2,
            inner,
            subscribers: Vec::new(),
            index: ArchetypeIndex::new(),
        }
    }

    /// The root archetype id.
    pub fn root(&self) -> (r: ArchetypeId)
        ensures
            r == self.spec_root(),
    {
        self.root
    }

    /// The generation counter: bumped on every archetype creation or
    /// removal, so queries can invalidate cached archetype sets.
    pub fn gen(&self) -> (r: u32)
        ensures
            r == self.spec_gen(),
    {
        self.gen
    }

    /// The inverted index over the live archetypes.
    pub fn index(&self) -> (r: &ArchetypeIndex)
        ensures
            *r == self.spec_index(),
    {
        &self.index
    }

    /// Whether an archetype id resolves to a live archetype.
    pub fn is_live(&self, arch_id: ArchetypeId) -> (r: bool)
        ensures
            r == self.spec_is_live(arch_id),
    {
        arch_id < self.inner.len() && self.inner[arch_id].is_some()
    }

    /// A live archetype by id.
    pub fn get(&self, arch_id: ArchetypeId) -> (r: &Archetype)
        requires
            self.spec_is_live(arch_id),
        ensures
            *r == self.spec_arch(arch_id),
    {
        match &self.inner[arch_id] {
            Some(a) => a,
            None => vstd::pervasive::unreached(),
        }
    }

    /// A live archetype by id, mutably.
    pub fn get_mut(&mut self, arch_id: ArchetypeId) -> (r: &mut Archetype)
        requires
            old(self).spec_is_live(arch_id),
        ensures
            *r == old(self).spec_arch(arch_id),
            final(self).spec_inner() == old(self).spec_inner().update(
                arch_id as int,
                Option::Some(*final(r)),
            ),
            final(self).spec_root() == old(self).spec_root(),
            final(self).spec_reserved() == old(self).spec_reserved(),
            final(self).spec_gen() == old(self).spec_gen(),
            final(self).spec_index() == old(self).spec_index(),
            final(self).spec_subscribers() == old(self).spec_subscribers(),
    {
        match &mut self.inner[arch_id] {
            Some(a) => a,
            None => vstd::pervasive::unreached(),
        }
    }

    /// Two distinct live archetypes at once.
    pub fn get_disjoint(&mut self, a: ArchetypeId, b: ArchetypeId) -> (r: Option<
        (&Archetype, &Archetype),
    >)
        ensures
            r is Some <==> (a != b && old(self).spec_is_live(a) && old(self).spec_is_live(b)),
            r is Some ==> *r->Some_0.0 == old(self).spec_arch(a) && *r->Some_0.1 == old(self).spec_arch(b),
            *final(self) == *old(self),
    {
        if a == b || a >= self.inner.len() || b >= self.inner.len() {
            return None;
        }
        match (&self.inner[a], &self.inner[b]) {
            (Some(x), Some(y)) => Some((x, y)),
            _ => None,
        }
    }

    /// The ids of all live archetypes, in ascending order.
    pub fn iter(&self) -> (r: Vec<ArchetypeId>)
        ensures
            forall|p: int| 0 <= p < r@.len() ==> self.spec_is_live(#[trigger] r@[p]),
            forall|id: ArchetypeId| self.spec_is_live(id) ==> r@.contains(id),
            forall|p: int, q: int| 0 <= p < q < r@.len() ==> r@[p] < r@[q],
    {
        let mut out: Vec<ArchetypeId> = Vec::new();
        let mut i: usize = 0;
        while i < self.inner.len()
            invariant
                i <= self.spec_inner().len(),
                forall|p: int| 0 <= p < out@.len() ==> self.spec_is_live(#[trigger] out@[p]),
                forall|id: ArchetypeId|
                    id < i && self.spec_is_live(id) ==> out@.contains(id),
                forall|p: int, q: int| 0 <= p < q < out@.len() ==> out@[p] < out@[q],
                forall|p: int| 0 <= p < out@.len() ==> #[trigger] out@[p] < i,
            decreases self.spec_inner().len() - i,
        {
            let ghost out0 = out@;
            if self.inner[i].is_some() {
                out.push(i);
                proof {
                    assert forall|id: ArchetypeId|
                        id < i + 1 && self.spec_is_live(id) implies out@.contains(id) by {
                        if id < i {
                            let p = choose|p: int| 0 <= p < out0.len() && out0[p] == id;
                            assert(out@[p] == id);
                        } else {
                            assert(out@[out@.len() - 1] == id);
                        }
                    }
                }
            }
            i = i + 1;
        }
        out
    }

    /// The ids of all live archetypes, for iteration with mutation.
    pub fn iter_mut(&mut self) -> (r: Vec<ArchetypeId>)
        ensures
            *final(self) == *old(self),
            forall|p: int| 0 <= p < r@.len() ==> old(self).spec_is_live(#[trigger] r@[p]),
            forall|id: ArchetypeId| old(self).spec_is_live(id) ==> r@.contains(id),
            forall|p: int, q: int| 0 <= p < q < r@.len() ==> r@[p] < r@[q],
    {
        self.iter()
    }

    /// Removes an archetype unconditionally, detaching the incoming edges
    /// of its parents and dropping its index records. Children stay
    /// reachable by id; the caller is responsible for any subtree
    /// consistency.
    pub fn despawn(&mut self, id: ArchetypeId) -> (r: Archetype)
        requires
            old(self).wf(),
            old(self).spec_is_live(id),
            id != old(self).spec_root(),
            id != old(self).spec_reserved(),
        ensures
            final(self).wf(),
            r == old(self).spec_arch(id),
            !final(self).spec_is_live(id),
            final(self).spec_inner().len() == old(self).spec_inner().len(),
            forall|j: int|
                0 <= j < old(self).spec_inner().len() && j != id as int ==> ((#[trigger] final(self).spec_inner()[j]) is Some <==> old(self).spec_inner()[j] is Some),
            forall|j: int|
                0 <= j < old(self).spec_inner().len() && j != id as int && old(self).spec_inner()[j] is Some ==> (#[trigger] final(self).spec_inner()[j])
                    ->Some_0.spec_components() == old(self).spec_inner()[j]
                    ->Some_0.spec_components() && final(self).spec_inner()[j]
                    ->Some_0.spec_entities() == old(self).spec_inner()[j]->Some_0.spec_entities()
                    && final(self).spec_inner()[j]->Some_0.spec_cells() == old(self).spec_inner()[j]->Some_0.spec_cells(),
            live_count(final(self).spec_inner()) + 1 == live_count(old(self).spec_inner()),
            final(self).spec_gen() == gen_after(old(self).spec_gen(), 1),
            forall|k: ComponentKey|
                !crate::index::idx_contains(final(self).spec_index().spec_entries(), k, id),
            // every parent named in the incoming map loses its outgoing link
            forall|t: int|
                0 <= t < r.spec_incoming().len() ==> {
                    let e = #[trigger] r.spec_incoming()[t];
                    (e.1 != id && final(self).spec_is_live(e.1)) ==> !edges_contain(
                        final(self).spec_arch(e.1).spec_outgoing(),
                        e.0,
                    )
                },
            // surviving archetypes keep their incoming edges; their outgoing
            // edges only shrink
            forall|j: int|
                0 <= j < old(self).spec_inner().len() && j != id as int && old(self).spec_inner()[j] is Some ==> (#[trigger] final(self).spec_inner()[j])
                    ->Some_0.spec_incoming() == old(self).spec_inner()[j]->Some_0.spec_incoming()
                    && (forall|k2: ComponentKey|
                    edges_contain(final(self).spec_inner()[j]->Some_0.spec_outgoing(), k2)
                        ==> edges_contain(old(self).spec_inner()[j]->Some_0.spec_outgoing(), k2)),
            // an archetype that is no parent of the removed one is untouched
            forall|j: int|
                0 <= j < old(self).spec_inner().len() && j != id as int && old(self).spec_inner()[j] is Some && (forall|u: int|
                    0 <= u < r.spec_incoming().len() ==> (#[trigger] r.spec_incoming()[u]).1
                        != j) ==> #[trigger] final(self).spec_inner()[j] == old(self).spec_inner()[j],
            // the index only loses records, all of them the removed one's
            forall|i: int|
                0 <= i < final(self).spec_index().spec_entries().len() ==> old(self).spec_index().spec_entries().contains(
                    #[trigger] final(self).spec_index().spec_entries()[i],
                ),
            forall|i: int|
                0 <= i < final(self).spec_index().spec_entries().len() ==> (#[trigger] final(self).spec_index().spec_entries()[i]).arch_id != id,
    {
        let arch = match self.inner[id].take() {
            Some(a) => a,
            None => vstd::pervasive::unreached(),
        };
        proof {
            lemma_live_count_update_none(old(self).spec_inner(), id as int);
        }
        let ghost after_take = self.inner@;
        let incoming = arch.incoming();
        let n = incoming.len();
        let mut t: usize = 0;
        while t < n
            invariant
                t <= n,
                n == arch.spec_incoming().len(),
                incoming@ == arch.spec_incoming(),
                self.root == old(self).spec_root(),
                self.reserved == old(self).spec_reserved(),
                self.gen == old(self).spec_gen(),
                self.index == old(self).spec_index(),
                forall|u: int|
                    0 <= u < t as int ==> {
                        let e = #[trigger] arch.spec_incoming()[u];
                        (e.1 != id && e.1 < self.inner@.len() && self.inner@[e.1 as int]
                            is Some) ==> !edges_contain(
                            self.inner@[e.1 as int]->Some_0.spec_outgoing(),
                            e.0,
                        )
                    },
                self.inner@.len() == old(self).spec_inner().len(),
                !(self.inner@[id as int] is Some),
                id < self.inner@.len(),
                forall|j: int|
                    0 <= j < self.inner@.len() ==> ((#[trigger] self.inner@[j]) is Some
                        <==> after_take[j] is Some),
                forall|j: int|
                    0 <= j < self.inner@.len() && (#[trigger] self.inner@[j]) is Some
                        ==> self.inner@[j]->Some_0.wf() && self.inner@[j]
                        ->Some_0.spec_components() == after_take[j]->Some_0.spec_components()
                        && self.inner@[j]->Some_0.spec_entities() == after_take[j]
                        ->Some_0.spec_entities() && self.inner@[j]->Some_0.spec_cells()
                        == after_take[j]->Some_0.spec_cells() && self.inner@[j]
                        ->Some_0.spec_incoming() == after_take[j]->Some_0.spec_incoming(),
                forall|j: int|
                    0 <= j < self.inner@.len() && (#[trigger] self.inner@[j]) is Some ==> (forall|
                        k2: ComponentKey,
                    |
                        edges_contain(self.inner@[j]->Some_0.spec_outgoing(), k2)
                            ==> edges_contain(after_take[j]->Some_0.spec_outgoing(), k2)),
                forall|j: int|
                    0 <= j < self.inner@.len() && (#[trigger] self.inner@[j]) is Some && (forall|
                        u: int,
                    |
                        0 <= u < t as int ==> (#[trigger] arch.spec_incoming()[u]).1 != j)
                        ==> self.inner@[j] == after_take[j],
            decreases n - t,
        {
            let (key, dst) = incoming[t];
            if dst < self.inner.len() && dst != id {
                let live = self.inner[dst].is_some();
                if live {
                    let ghost pre = self.inner@;
                    let a = self.get_mut(dst);
                    a.remove_link(&key);
                    proof {
                        assert forall|j: int|
                            0 <= j < self.inner@.len() implies ((#[trigger] self.inner@[j])
                                is Some <==> pre[j] is Some) by {
                            if j != dst as int {
                                assert(self.inner@[j] == pre[j]);
                            }
                        }
                        assert forall|u: int| 0 <= u < t as int + 1 implies {
                            let e = #[trigger] arch.spec_incoming()[u];
                            (e.1 != id && e.1 < self.inner@.len() && self.inner@[e.1 as int]
                                is Some) ==> !edges_contain(
                                self.inner@[e.1 as int]->Some_0.spec_outgoing(),
                                e.0,
                            )
                        } by {
                            let e = arch.spec_incoming()[u];
                            if e.1 != id && e.1 < self.inner@.len() && self.inner@[e.1 as int]
                                is Some {
                                if u < t as int {
                                    if e.1 != dst {
                                        assert(self.inner@[e.1 as int] == pre[e.1 as int]);
                                    }
                                }
                            }
                        }
                    }
                }
            }
            t = t + 1;
        }
        self.gen = self.gen.wrapping_add(1);
        self.index.unregister(id);
        proof {
            reveal_with_fuel(gen_after, 2);
            assert(self.gen == gen_after(old(self).spec_gen(), 1));
            lemma_live_count_congruent(self.inner@, after_take);
            assert forall|u: int| 0 <= u < n as int implies {
                let e = #[trigger] arch.spec_incoming()[u];
                (e.1 != id && self.spec_is_live(e.1)) ==> !edges_contain(
                    self.spec_arch(e.1).spec_outgoing(),
                    e.0,
                )
            } by {}
            assert forall|i: int|
                0 <= i < self.spec_index().spec_entries().len() implies self.spec_is_live(
                (#[trigger] self.spec_index().spec_entries()[i]).arch_id,
            ) by {
                assert(old(self).spec_index().spec_entries().contains(
                    self.spec_index().spec_entries()[i],
                ));
                let j = choose|j: int|
                    0 <= j < old(self).spec_index().spec_entries().len() && old(self).spec_index().spec_entries()[j] == self.spec_index().spec_entries()[i];
                assert(old(self).spec_is_live(old(self).spec_index().spec_entries()[j].arch_id));
                assert(self.spec_index().spec_entries()[i].arch_id != id);
            }
        }
        arch
    }

    /// Prunes an archetype that is empty, has no outgoing edges and is
    /// neither root nor reserved; then tries the same on each parent. Says
    /// whether anything was pruned.
    #[verifier::rlimit(100)]
    #[verifier::spinoff_prover]
    pub fn prune_arch(&mut self, arch_id: ArchetypeId) -> (r: bool)
        requires
            old(self).wf(),
            old(self).spec_is_live(arch_id),
        ensures
            final(self).wf(),
            live_count(final(self).spec_inner()) <= live_count(old(self).spec_inner()),
            final(self).spec_inner().len() == old(self).spec_inner().len(),
            !r ==> *final(self) == *old(self),
            final(self).spec_gen() == gen_after(
                old(self).spec_gen(),
                (live_count(old(self).spec_inner()) - live_count(final(self).spec_inner())) as nat,
            ),
            forall|j: int|
                0 <= j < old(self).spec_inner().len() && !((#[trigger] old(self).spec_inner()[j]) is Some) ==> !(final(self).spec_inner()[j] is Some),
            r == old(self).spec_prunable(arch_id),
            r ==> !final(self).spec_is_live(arch_id),
            // surviving archetypes keep their storage and incoming edges;
            // their outgoing edges only shrink
            forall|j: int|
                0 <= j < old(self).spec_inner().len() && (#[trigger] final(self).spec_inner()[j]) is Some ==> old(self).spec_inner()[j] is Some && final(self).spec_inner()[j]
                    ->Some_0.spec_components() == old(self).spec_inner()[j]
                    ->Some_0.spec_components() && final(self).spec_inner()[j]
                    ->Some_0.spec_entities() == old(self).spec_inner()[j]->Some_0.spec_entities()
                    && final(self).spec_inner()[j]->Some_0.spec_cells() == old(self).spec_inner()[j]->Some_0.spec_cells() && final(self).spec_inner()[j]->Some_0.spec_incoming()
                    == old(self).spec_inner()[j]->Some_0.spec_incoming() && (forall|
                    k2: ComponentKey,
                |
                    edges_contain(final(self).spec_inner()[j]->Some_0.spec_outgoing(), k2)
                        ==> edges_contain(old(self).spec_inner()[j]->Some_0.spec_outgoing(), k2)),
            // the index only loses records; the pruned archetype's are gone
            forall|i: int|
                0 <= i < final(self).spec_index().spec_entries().len() ==> old(self).spec_index().spec_entries().contains(
                    #[trigger] final(self).spec_index().spec_entries()[i],
                ),
            r ==> forall|i: int|
                0 <= i < final(self).spec_index().spec_entries().len() ==> (#[trigger] final(self).spec_index().spec_entries()[i]).arch_id != arch_id,
            // each parent of the pruned archetype loses its edge to it
            r ==> forall|u: int|
                0 <= u < old(self).spec_arch(arch_id).spec_incoming().len() ==> {
                    let e = #[trigger] old(self).spec_arch(arch_id).spec_incoming()[u];
                    (e.1 != arch_id && final(self).spec_is_live(e.1)) ==> !edges_contain(
                        final(self).spec_arch(e.1).spec_outgoing(),
                        e.0,
                    )
                },
            // pruning leaves no archetype behind that it made prunable
            forall|p: ArchetypeId|
                final(self).spec_prunable(p) ==> old(self).spec_prunable(p),
        decreases live_count(old(self).spec_inner()),
    {
        let arch = self.get(arch_id);
        if arch_id == self.root || arch_id == self.reserved || !arch.is_empty()
            || arch.outgoing().len() > 0 {
            return false;
        }
        let arch = self.despawn(arch_id);
        let ghost after_despawn = self.inner@;
        proof {
            // after the despawn, only a parent of the pruned archetype can
            // have turned prunable
            assert forall|p: ArchetypeId|
                self.spec_prunable(p) implies old(self).spec_prunable(p) || exists|u: int|
                0 <= u < arch.spec_incoming().len() && (#[trigger] arch.spec_incoming()[u]).1
                    == p by {
                let is_parent = exists|u: int|
                    0 <= u < arch.spec_incoming().len() && (#[trigger] arch.spec_incoming()[u]).1
                        == p;
                if !is_parent {
                    assert(self.spec_inner()[p as int] == old(self).spec_inner()[p as int]);
                }
            }
        }
        let incoming = arch.incoming();
        let n = incoming.len();
        let mut t: usize = 0;
        while t < n
            invariant
                t <= n,
                n == arch.spec_incoming().len(),
                incoming@ == arch.spec_incoming(),
                self.wf(),
                arch == old(self).spec_arch(arch_id),
                arch_id < self.inner@.len(),
                self.inner@.len() == old(self).spec_inner().len(),
                !(self.inner@[arch_id as int] is Some),
                self.gen == gen_after(
                    old(self).spec_gen(),
                    (live_count(old(self).spec_inner()) - live_count(self.spec_inner())) as nat,
                ),
                forall|j: int|
                    0 <= j < old(self).spec_inner().len() && !((#[trigger] old(self).spec_inner()[j]) is Some) ==> !(self.inner@[j] is Some),
                live_count(self.spec_inner()) <= live_count(after_despawn),
                live_count(after_despawn) + 1 == live_count(old(self).spec_inner()),
                // survivors keep storage and incoming; outgoing only shrinks
                forall|j: int|
                    0 <= j < old(self).spec_inner().len() && (#[trigger] self.inner@[j]) is Some
                        ==> old(self).spec_inner()[j] is Some && self.inner@[j]
                        ->Some_0.spec_components() == old(self).spec_inner()[j]
                        ->Some_0.spec_components() && self.inner@[j]->Some_0.spec_entities()
                        == old(self).spec_inner()[j]->Some_0.spec_entities() && self.inner@[j]
                        ->Some_0.spec_cells() == old(self).spec_inner()[j]->Some_0.spec_cells()
                        && self.inner@[j]->Some_0.spec_incoming() == old(self).spec_inner()[j]
                        ->Some_0.spec_incoming() && (forall|k2: ComponentKey|
                        edges_contain(self.inner@[j]->Some_0.spec_outgoing(), k2)
                            ==> edges_contain(
                            old(self).spec_inner()[j]->Some_0.spec_outgoing(),
                            k2,
                        )),
                forall|i: int|
                    0 <= i < self.spec_index().spec_entries().len() ==> old(self).spec_index().spec_entries().contains(
                        #[trigger] self.spec_index().spec_entries()[i],
                    ),
                forall|i: int|
                    0 <= i < self.spec_index().spec_entries().len() ==> (
                    #[trigger] self.spec_index().spec_entries()[i]).arch_id != arch_id,
                // parents already lost their edge to the pruned archetype
                forall|u: int|
                    0 <= u < n as int ==> {
                        let e = #[trigger] arch.spec_incoming()[u];
                        (e.1 != arch_id && self.spec_is_live(e.1)) ==> !edges_contain(
                            self.spec_arch(e.1).spec_outgoing(),
                            e.0,
                        )
                    },
                // any prunable archetype was prunable all along or is one of
                // the parents still to be visited
                forall|p: ArchetypeId|
                    self.spec_prunable(p) ==> old(self).spec_prunable(p) || exists|u: int|
                        t as int <= u < n as int && (#[trigger] arch.spec_incoming()[u]).1 == p,
            decreases n - t,
        {
            let (_key, dst) = incoming[t];
            let ghost snap = *self;
            if dst < self.inner.len() {
                let live = self.inner[dst].is_some();
                if live {
                    let ghost lc_pre = live_count(self.spec_inner());
                    let pruned = self.prune_arch(dst);
                    proof {
                        lemma_gen_after_compose(
                            old(self).spec_gen(),
                            (live_count(old(self).spec_inner()) - lc_pre) as nat,
                            (lc_pre - live_count(self.spec_inner())) as nat,
                        );
                        // the visited parent is no longer prunable: either
                        // it was pruned or it never was prunable
                        assert(!self.spec_prunable(dst)) by {
                            if pruned {
                                assert(!self.spec_is_live(dst));
                            } else {
                                assert(*self == snap);
                            }
                        }
                        assert forall|p: ArchetypeId|
                            self.spec_prunable(p) implies old(self).spec_prunable(p) || exists|
                            u: int,
                        |
                            t as int + 1 <= u < n as int && (#[trigger] arch.spec_incoming()[u]).1
                                == p by {
                            assert(snap.spec_prunable(p));
                            if !old(self).spec_prunable(p) {
                                let u = choose|u: int|
                                    t as int <= u < n as int && (#[trigger] arch.spec_incoming()[
                                        u
                                    ]).1 == p;
                                assert(u != t as int);
                            }
                        }
                    }
                } else {
                    proof {
                        assert(!self.spec_prunable(dst));
                        assert forall|p: ArchetypeId|
                            self.spec_prunable(p) implies old(self).spec_prunable(p) || exists|
                            u: int,
                        |
                            t as int + 1 <= u < n as int && (#[trigger] arch.spec_incoming()[u]).1
                                == p by {
                            if !old(self).spec_prunable(p) {
                                let u = choose|u: int|
                                    t as int <= u < n as int && (#[trigger] arch.spec_incoming()[
                                        u
                                    ]).1 == p;
                                assert(u != t as int);
                            }
                        }
                    }
                }
            } else {
                proof {
                    assert(!self.spec_prunable(dst));
                    assert forall|p: ArchetypeId|
                        self.spec_prunable(p) implies old(self).spec_prunable(p) || exists|u: int|
                        t as int + 1 <= u < n as int && (#[trigger] arch.spec_incoming()[u]).1
                            == p by {
                        if !old(self).spec_prunable(p) {
                            let u = choose|u: int|
                                t as int <= u < n as int && (#[trigger] arch.spec_incoming()[u]).1
                                    == p;
                            assert(u != t as int);
                        }
                    }
                }
            }
            t = t + 1;
        }
        true
    }

    /// Registers a subscriber: disconnected subscribers are dropped from
    /// the global list, the new one is attached to every live archetype it
    /// matches (a handler copy per archetype), and it joins the global
    /// list.
    pub fn add_subscriber(&mut self, subscriber: Subscriber)
        requires
            old(self).wf(),
        ensures
            final(self).wf(),
            final(self).spec_subscribers().len() > 0,
            final(self).spec_subscribers().last() == subscriber,
            forall|p: int|
                0 <= p < final(self).spec_subscribers().len() - 1 ==> (#[trigger] final(self).spec_subscribers()[p]).spec_connected() && old(self).spec_subscribers().contains(final(self).spec_subscribers()[p]),
            live_count(final(self).spec_inner()) == live_count(old(self).spec_inner()),
            final(self).spec_inner().len() == old(self).spec_inner().len(),
            forall|j: int|
                0 <= j < old(self).spec_inner().len() ==> ((#[trigger] final(self).spec_inner()[j]) is Some <==> old(self).spec_inner()[j] is Some),
            // every matching live archetype gets one handler copy appended;
            // the others are untouched
            forall|j: int|
                #![trigger final(self).spec_inner()[j]]
                0 <= j < old(self).spec_inner().len() && old(self).spec_inner()[j] is Some ==> {
                    let olda = old(self).spec_inner()[j]->Some_0;
                    let newa = final(self).spec_inner()[j]->Some_0;
                    &&& newa.spec_components() == olda.spec_components()
                    &&& newa.spec_entities() == olda.spec_entities()
                    &&& newa.spec_cells() == olda.spec_cells()
                    &&& newa.spec_outgoing() == olda.spec_outgoing()
                    &&& newa.spec_incoming() == olda.spec_incoming()
                    &&& arch_matches(olda, subscriber) ==> newa.spec_subscribers().len() == olda
                        .spec_subscribers().len() + 1 && newa.spec_subscribers().last()
                        .spec_connected() == subscriber.spec_connected()
                        && newa.spec_subscribers().last().spec_required()
                        == subscriber.spec_required() && (forall|q: int|
                        0 <= q < olda.spec_subscribers().len()
                            ==> #[trigger] newa.spec_subscribers()[q]
                            == olda.spec_subscribers()[q])
                    &&& !arch_matches(olda, subscriber) ==> newa.spec_subscribers() == olda
                        .spec_subscribers()
                },
    {
        let total = self.inner.len();
        proof {
            assert(old(self).spec_inner().len() == total as int);
        }
        let mut olds = Vec::new();
        core::mem::swap(&mut olds, &mut self.subscribers);
        let ghost subs0 = olds@;
        let mut kept: Vec<Subscriber> = Vec::new();
        while olds.len() > 0
            invariant
                forall|p: int|
                    0 <= p < kept@.len() ==> (#[trigger] kept@[p]).spec_connected()
                        && subs0.contains(kept@[p]),
                forall|p: int| 0 <= p < olds@.len() ==> subs0.contains(#[trigger] olds@[p]),
                subs0 == old(self).spec_subscribers(),
            decreases olds@.len(),
        {
            proof {
                assert(subs0.contains(olds@[0]));
            }
            let ghost prev = olds@;
            let s = olds.remove(0);
            if s.is_connected() {
                kept.push(s);
            }
            proof {
                assert forall|p: int| 0 <= p < olds@.len() implies subs0.contains(
                    #[trigger] olds@[p],
                ) by {
                    assert(olds@[p] == prev[p + 1]);
                }
            }
        }
        self.subscribers = kept;
        // attach a handler copy to every matching live archetype
        let ids = self.iter_mut();
        let mut p: usize = 0;
        while p < ids.len()
            invariant
                p <= ids@.len(),
                self.wf(),
                self.root == old(self).spec_root(),
                self.reserved == old(self).spec_reserved(),
                forall|q: int| 0 <= q < ids@.len() ==> old(self).spec_is_live(#[trigger] ids@[q]),
                forall|q1: int, q2: int| 0 <= q1 < q2 < ids@.len() ==> ids@[q1] < ids@[q2],
                forall|id: ArchetypeId| old(self).spec_is_live(id) ==> ids@.contains(id),
                self.inner@.len() == old(self).spec_inner().len(),
                forall|j: int|
                    0 <= j < self.inner@.len() ==> ((#[trigger] self.inner@[j]) is Some <==> old(self).spec_inner()[j] is Some),
                self.index == old(self).spec_index(),
                self.subscribers@ == kept@,
                forall|q: int|
                    0 <= q < kept@.len() ==> (#[trigger] kept@[q]).spec_connected()
                        && subs0.contains(kept@[q]),
                subs0 == old(self).spec_subscribers(),
                forall|q: int|
                    #![trigger ids@[q]]
                    0 <= q < ids@.len() ==> {
                        let j = ids@[q] as int;
                        let olda = old(self).spec_inner()[j]->Some_0;
                        let newa = self.inner@[j]->Some_0;
                        if q < p as int {
                            &&& newa.spec_components() == olda.spec_components()
                            &&& newa.spec_entities() == olda.spec_entities()
                            &&& newa.spec_cells() == olda.spec_cells()
                            &&& newa.spec_outgoing() == olda.spec_outgoing()
                            &&& newa.spec_incoming() == olda.spec_incoming()
                            &&& arch_matches(olda, subscriber) ==> newa.spec_subscribers().len()
                                == olda.spec_subscribers().len() + 1 && newa.spec_subscribers()
                                .last().spec_connected() == subscriber.spec_connected()
                                && newa.spec_subscribers().last().spec_required()
                                == subscriber.spec_required() && (forall|w: int|
                                0 <= w < olda.spec_subscribers().len()
                                    ==> #[trigger] newa.spec_subscribers()[w]
                                    == olda.spec_subscribers()[w])
                            &&& !arch_matches(olda, subscriber) ==> newa.spec_subscribers()
                                == olda.spec_subscribers()
                        } else {
                            self.inner@[j] == old(self).spec_inner()[j]
                        }
                    },
            decreases ids@.len() - p,
        {
            let id = ids[p];
            proof {
                assert(ids@[p as int] == id);
                assert(old(self).spec_is_live(id));
                assert(self.inner@[id as int] == old(self).spec_inner()[id as int]);
            }
            let matches = self.get(id).matches_subscriber(&subscriber);
            if matches {
                let ghost pre = self.inner@;
                let a = self.get_mut(id);
                a.add_handler(subscriber.clone_subscriber());
                proof {
                    assert forall|j: int|
                        0 <= j < self.inner@.len() implies ((#[trigger] self.inner@[j]) is Some
                        <==> old(self).spec_inner()[j] is Some) by {
                        if j != id as int {
                            assert(self.inner@[j] == pre[j]);
                        }
                    }
                    assert forall|j: int, c: int|
                        #![trigger self.inner@[j]->Some_0.spec_components()[c]]
                        0 <= j < self.inner@.len() && self.inner@[j] is Some && 0 <= c
                            < self.inner@[j]->Some_0.spec_components().len() implies concrete_key(
                        self.inner@[j]->Some_0.spec_components()[c].key,
                    ) by {
                        if j != id as int {
                            assert(self.inner@[j] == pre[j]);
                        } else {
                            assert(self.inner@[j]->Some_0.spec_components() == pre[
                                j
                            ]->Some_0.spec_components());
                        }
                    }
                    assert forall|q: int|
                        #![trigger ids@[q]]
                        0 <= q < ids@.len() && q != p as int implies self.inner@[ids@[q] as int]
                        == pre[ids@[q] as int] by {
                        if q < p as int {
                            assert(ids@[q] < ids@[p as int]);
                        } else {
                            assert(ids@[p as int] < ids@[q]);
                        }
                    }
                }
            } else {
                proof {
                    assert forall|q: int|
                        #![trigger ids@[q]]
                        0 <= q < ids@.len() && q != p as int implies self.inner@[ids@[q] as int]
                        == self.inner@[ids@[q] as int] by {}
                }
            }
            p = p + 1;
        }
        self.subscribers.push(subscriber);
        proof {
            lemma_live_count_congruent(self.inner@, old(self).spec_inner());
            assert forall|j: int|
                #![trigger self.inner@[j]]
                0 <= j < old(self).spec_inner().len() && old(self).spec_inner()[j]
                    is Some implies {
                let olda = old(self).spec_inner()[j]->Some_0;
                let newa = self.inner@[j]->Some_0;
                &&& newa.spec_components() == olda.spec_components()
                &&& newa.spec_entities() == olda.spec_entities()
                &&& newa.spec_cells() == olda.spec_cells()
                &&& newa.spec_outgoing() == olda.spec_outgoing()
                &&& newa.spec_incoming() == olda.spec_incoming()
                &&& arch_matches(olda, subscriber) ==> newa.spec_subscribers().len() == olda
                    .spec_subscribers().len() + 1 && newa.spec_subscribers().last()
                    .spec_connected() == subscriber.spec_connected() && newa.spec_subscribers()
                    .last().spec_required() == subscriber.spec_required() && (forall|q: int|
                    0 <= q < olda.spec_subscribers().len()
                        ==> #[trigger] newa.spec_subscribers()[q] == olda.spec_subscribers()[q])
                &&& !arch_matches(olda, subscriber) ==> newa.spec_subscribers() == olda
                    .spec_subscribers()
            } by {
                assert(j < total as int);
                assert(old(self).spec_is_live(j as ArchetypeId));
                assert(ids@.contains(j as ArchetypeId));
                let q = choose|q: int| 0 <= q < ids@.len() && ids@[q] == j as ArchetypeId;
                assert(0 <= q < ids@.len());
                assert(ids@[q] == j as ArchetypeId);
            }
        }
    }

    pub closed spec fn spec_subscribers(&self) -> Seq<Subscriber> {
        self.subscribers@
    }

    /// Creates the child archetype of `cursor` for `head`: derives the
    /// component set under the exclusive-relation rule, attaches matching
    /// subscribers, registers the child in the index, links it to its
    /// parent in both directions and advances the generation counter.
    #[verifier::rlimit(100)]
    #[verifier::spinoff_prover]
    fn create_child(&mut self, cursor: ArchetypeId, head: ComponentDesc) -> (new_id: ArchetypeId)
        requires
            old(self).wf(),
            old(self).spec_is_live(cursor),
            concrete_key(head.key),
            old(self).spec_inner().len() < usize::MAX,
        ensures
            final(self).wf(),
            new_id == old(self).spec_inner().len(),
            final(self).spec_inner().len() == old(self).spec_inner().len() + 1,
            final(self).spec_is_live(new_id),
            final(self).spec_root() == old(self).spec_root(),
            final(self).spec_reserved() == old(self).spec_reserved(),
            final(self).spec_subscribers() == old(self).spec_subscribers(),
            final(self).spec_gen() == gen_after(old(self).spec_gen(), 1),
            // everything but the parent is untouched
            forall|j: int|
                0 <= j < old(self).spec_inner().len() && j != cursor as int ==> #[trigger] final(self).spec_inner()[j] == old(self).spec_inner()[j],
            // the parent only has its outgoing edge for the key renewed
            final(self).spec_is_live(cursor),
            final(self).spec_arch(cursor).spec_components() == old(self).spec_arch(
                cursor,
            ).spec_components(),
            final(self).spec_arch(cursor).spec_entities() == old(self).spec_arch(
                cursor,
            ).spec_entities(),
            final(self).spec_arch(cursor).spec_cells() == old(self).spec_arch(
                cursor,
            ).spec_cells(),
            final(self).spec_arch(cursor).spec_incoming() == old(self).spec_arch(
                cursor,
            ).spec_incoming(),
            final(self).spec_arch(cursor).spec_subscribers() == old(self).spec_arch(
                cursor,
            ).spec_subscribers(),
            final(self).spec_arch(cursor).spec_outgoing() == old(self).spec_arch(
                cursor,
            ).spec_outgoing().filter(|e: (ComponentKey, ArchetypeId)| e.0 != head.key).push(
                (head.key, new_id),
            ),
            // the child: empty, linked to the parent, derived per the rule
            final(self).spec_arch(new_id).spec_entities().len() == 0,
            final(self).spec_arch(new_id).spec_incoming() == Seq::<(ComponentKey, ArchetypeId)>
                ::empty().push((head.key, cursor)),
            final(self).spec_arch(new_id).spec_has(head.key),
            forall|c: int|
                0 <= c < final(self).spec_arch(new_id).spec_components().len() ==> (
                #[trigger] final(self).spec_arch(new_id).spec_components()[c]) == head || old(self).spec_arch(cursor).spec_components().contains(
                    final(self).spec_arch(new_id).spec_components()[c],
                ),
            forall|c: int|
                0 <= c < old(self).spec_arch(cursor).spec_components().len() ==> {
                    let d = #[trigger] old(self).spec_arch(cursor).spec_components()[c];
                    d.key == head.key || (head.key.object is Some && head.exclusive && d.key.id
                        == head.key.id) || final(self).spec_arch(new_id).spec_components()
                        .contains(d)
                },
            (head.key.object is Some && head.exclusive) ==> forall|c: int|
                0 <= c < final(self).spec_arch(new_id).spec_components().len() && (
                #[trigger] final(self).spec_arch(new_id).spec_components()[c]).key.id
                    == head.key.id ==> final(self).spec_arch(new_id).spec_components()[c].key
                    == head.key,
            exists|c: int|
                0 <= c < final(self).spec_arch(new_id).spec_components().len()
                    && #[trigger] final(self).spec_arch(new_id).spec_components()[c] == head,
            // the child is registered in the index; all older records stay
            forall|k: ComponentKey|
                crate::index::concrete_key(k) ==> (crate::index::idx_contains(
                    final(self).spec_index().spec_entries(),
                    k,
                    new_id,
                ) <==> final(self).spec_arch(new_id).spec_has(k)),
            forall|k: ComponentKey|
                crate::index::is_wildcard_of(&final(self).spec_arch(new_id), k)
                    ==> crate::index::idx_backed(
                    final(self).spec_index().spec_entries(),
                    k,
                    new_id,
                ),
            forall|i: int|
                0 <= i < old(self).spec_index().spec_entries().len() ==> #[trigger] final(self).spec_index().spec_entries()[i] == old(self).spec_index().spec_entries()[i],
            final(self).spec_index().spec_entries().len() >= old(self).spec_index().spec_entries().len(),
            forall|i: int|
                old(self).spec_index().spec_entries().len() <= i < final(self).spec_index().spec_entries().len() ==> (#[trigger] final(self).spec_index().spec_entries()[i]).arch_id
                    == new_id,
            // every matching subscriber of the global list is attached
            forall|q: int|
                0 <= q < old(self).spec_subscribers().len() && arch_matches(
                    final(self).spec_arch(new_id),
                    #[trigger] old(self).spec_subscribers()[q],
                ) ==> exists|w: int|
                    0 <= w < final(self).spec_arch(new_id).spec_subscribers().len() && (
                    #[trigger] final(self).spec_arch(new_id).spec_subscribers()[w]).spec_required()
                        == old(self).spec_subscribers()[q].spec_required() && final(self).spec_arch(new_id).spec_subscribers()[w].spec_connected() == old(self).spec_subscribers()[q].spec_connected(),
    {
        let child_components;
        {
            let cur = self.get(cursor);
            child_components = extend_components(cur.components(), head);
        }
        let mut new = Archetype::new(child_components);
        // attach the matching subscribers
        let m = self.subscribers.len();
        let mut si: usize = 0;
        while si < m
            invariant
                si <= m,
                m == self.subscribers@.len(),
                new.wf(),
                new.spec_components() == child_components@,
                new.spec_entities().len() == 0,
                new.spec_incoming() =~= Seq::<(ComponentKey, ArchetypeId)>::empty(),
                forall|q: int|
                    0 <= q < si as int && arch_matches(new, #[trigger] self.subscribers@[q])
                        ==> exists|w: int|
                        0 <= w < new.spec_subscribers().len() && (
                        #[trigger] new.spec_subscribers()[w]).spec_required()
                            == self.subscribers@[q].spec_required()
                            && new.spec_subscribers()[w].spec_connected()
                            == self.subscribers@[q].spec_connected(),
            decreases m - si,
        {
            let ghost new0 = new;
            let matches = new.matches_subscriber(&self.subscribers[si]);
            if matches {
                let s = self.subscribers[si].clone_subscriber();
                new.add_handler(s);
            }
            proof {
                assert forall|q: int|
                    0 <= q < si as int + 1 && arch_matches(new, #[trigger] self.subscribers@[q])
                        implies exists|w: int|
                        0 <= w < new.spec_subscribers().len() && (
                        #[trigger] new.spec_subscribers()[w]).spec_required()
                            == self.subscribers@[q].spec_required()
                            && new.spec_subscribers()[w].spec_connected()
                            == self.subscribers@[q].spec_connected() by {
                    if q < si as int {
                        assert(arch_matches(new0, self.subscribers@[q]));
                        let w = choose|w: int|
                            0 <= w < new0.spec_subscribers().len() && (
                            #[trigger] new0.spec_subscribers()[w]).spec_required()
                                == self.subscribers@[q].spec_required()
                                && new0.spec_subscribers()[w].spec_connected()
                                == self.subscribers@[q].spec_connected();
                        assert(new.spec_subscribers()[w] == new0.spec_subscribers()[w]);
                    } else {
                        assert(matches);
                        assert(new.spec_subscribers().last().spec_required()
                            == self.subscribers@[q].spec_required());
                    }
                }
            }
            si = si + 1;
        }
        self.gen = self.gen.wrapping_add(1);
        proof {
            reveal_with_fuel(gen_after, 2);
        }
        let new_id = self.inner.len();
        new.add_incoming(head.key, cursor);
        proof {
            assert(concrete_key(head.key));
            assert forall|c: int|
                0 <= c < new.spec_components().len() implies concrete_key(
                (#[trigger] new.spec_components()[c]).key,
            ) by {
                if new.spec_components()[c] != head {
                    let base = self.spec_arch(cursor).spec_components();
                    assert(base.contains(new.spec_components()[c]));
                    let z = choose|z: int|
                        0 <= z < base.len() && base[z] == new.spec_components()[c];
                }
            }
        }
        self.index.register(new_id, &new);
        proof {
            assert(new.spec_has(head.key)) by {
                let i = choose|i: int|
                    0 <= i < new.spec_components().len() && #[trigger] new.spec_components()[i]
                        == head;
            }
        }
        let ghost newg = new;
        let ghost idx_after = self.index;
        self.inner.push(Some(new));
        {
            let ghost pre = self.inner@;
            let c = self.get_mut(cursor);
            let ghost pre_out = c.spec_outgoing();
            c.remove_link(&head.key);
            c.add_child(head.key, new_id);
            proof {
                assert forall|j: int|
                    0 <= j < self.inner@.len() implies ((#[trigger] self.inner@[j]) is Some
                    <==> pre[j] is Some) by {
                    if j != cursor as int {
                        assert(self.inner@[j] == pre[j]);
                    }
                }
            }
        }
        proof {
            assert(self.spec_arch(new_id) == newg);
            assert(self.index == idx_after);
            assert forall|q: int|
                0 <= q < old(self).spec_subscribers().len() && arch_matches(
                    self.spec_arch(new_id),
                    #[trigger] old(self).spec_subscribers()[q],
                ) implies exists|w: int|
                0 <= w < self.spec_arch(new_id).spec_subscribers().len() && (#[trigger] self
                    .spec_arch(new_id).spec_subscribers()[w]).spec_required() == old(
                    self,
                ).spec_subscribers()[q].spec_required() && self.spec_arch(
                    new_id,
                ).spec_subscribers()[w].spec_connected() == old(self).spec_subscribers()[
                    q
                ].spec_connected() by {
                assert(arch_matches(newg, old(self).spec_subscribers()[q]));
            }
        }
        new_id
    }

    /// One walking step: the outgoing edge of `cursor` for `key`, when it
    /// leads to a live archetype holding the key.
    fn try_follow(&self, cursor: ArchetypeId, key: &ComponentKey) -> (r: Option<ArchetypeId>)
        requires
            self.wf(),
            self.spec_is_live(cursor),
        ensures
            r == (match edges_lookup(self.spec_arch(cursor).spec_outgoing(), *key) {
                Option::Some(id) => if self.spec_is_live(id) && self.spec_arch(id).spec_has(
                    *key,
                ) {
                    Option::Some(id)
                } else {
                    Option::<ArchetypeId>::None
                },
                Option::None => Option::None,
            }),
    {
        match self.get(cursor).outgoing_get(key) {
            Some(id) => {
                if id < self.inner.len() {
                    if self.inner[id].is_some() {
                        if self.get(id).has(key) {
                            return Some(id);
                        }
                    }
                }
                None
            },
            None => None,
        }
    }

    /// The walking invariant of `find_create`, relative to the state `s0`
    /// the call started from: the store and counter moves so far, the
    /// untouched frame, and the created archetypes.
    #[verifier::opaque]
    pub open spec fn fc_inv(
        s0: Archetypes,
        s: Archetypes,
        components: Seq<ComponentDesc>,
        cursor: ArchetypeId,
        t: int,
    ) -> bool {
        &&& s.wf()
        &&& s.spec_is_live(cursor)
        &&& s.spec_root() == s0.spec_root()
        &&& s.spec_reserved() == s0.spec_reserved()
        &&& s.spec_inner().len() >= s0.spec_inner().len()
        &&& s.spec_inner().len() <= s0.spec_inner().len() + t
        &&& forall|j: int|
            0 <= j < s0.spec_inner().len() ==> ((#[trigger] s.spec_inner()[j]) is Some
                <==> s0.spec_inner()[j] is Some)
        &&& forall|j: int|
            0 <= j < s0.spec_inner().len() && s0.spec_inner()[j] is Some ==> (
            #[trigger] s.spec_inner()[j])->Some_0.spec_components() == s0.spec_inner()[j]
                ->Some_0.spec_components() && s.spec_inner()[j]->Some_0.spec_entities()
                == s0.spec_inner()[j]->Some_0.spec_entities() && s.spec_inner()[j]
                ->Some_0.spec_cells() == s0.spec_inner()[j]->Some_0.spec_cells()
        &&& s.spec_gen() == gen_after(
            s0.spec_gen(),
            (s.spec_inner().len() - s0.spec_inner().len()) as nat,
        )
        &&& s.spec_subscribers() == s0.spec_subscribers()
        &&& forall|i: int|
            0 <= i < s0.spec_index().spec_entries().len() ==> #[trigger] s.spec_index().spec_entries()[i] == s0.spec_index().spec_entries()[i]
        &&& s.spec_index().spec_entries().len() >= s0.spec_index().spec_entries().len()
        &&& forall|i: int|
            s0.spec_index().spec_entries().len() <= i < s.spec_index().spec_entries().len() ==> (
            #[trigger] s.spec_index().spec_entries()[i]).arch_id >= s0.spec_inner().len()
        &&& (s.spec_inner().len() == s0.spec_inner().len() ==> s == s0)
        &&& forall|j: int|
            s0.spec_inner().len() <= j < s.spec_inner().len() ==> #[trigger] created_from(
                s,
                j,
                components,
                t,
            )
        // the cursor's component set holds exactly the requested descriptors
        // handled so far that no later handled descriptor drops
        &&& (s0.spec_arch(s0.spec_root()).spec_components().len() == 0 ==> forall|
            d: ComponentDesc,
        |
            #![trigger s.spec_arch(cursor).spec_components().contains(d)]
            s.spec_arch(cursor).spec_components().contains(d) <==> exists|u: int|
                0 <= u < t && #[trigger] components[u] == d && fc_survives(components, u, t))
    }

    /// One step of `find_create`: follow the edge for the next component,
    /// or create the missing child.
    #[verifier::rlimit(100)]
    #[verifier::spinoff_prover]
    fn walk_or_create(
        &mut self,
        cursor: ArchetypeId,
        components: &Vec<ComponentDesc>,
        t: usize,
        Ghost(s0): Ghost<Archetypes>,
    ) -> (res: ArchetypeId)
        requires
            t < components@.len(),
            forall|i: int, j: int|
                #![trigger components@[i], components@[j]]
                0 <= i < j < components@.len() ==> components@[i].key.spec_lt(
                    components@[j].key,
                ),
            forall|i: int|
                0 <= i < components@.len() ==> concrete_key((#[trigger] components@[i]).key),
            s0.spec_inner().len() + components@.len() < usize::MAX,
            Archetypes::fc_inv(s0, *old(self), components@, cursor, t as int),
        ensures
            Archetypes::fc_inv(s0, *final(self), components@, res, t as int + 1),
            final(self).spec_arch(res).spec_has(components@[t as int].key),
    {
        proof {
            reveal(Archetypes::fc_inv);
        }
        let head = components[t];
        let follow = self.try_follow(cursor, &head.key);
        // an edge is only followed to a child whose component set derives
        // from the cursor's; a stale child is replaced
        let next_id = match follow {
            Some(id) => {
                let expected = extend_components(self.get(cursor).components(), head);
                let same = descs_equal(&expected, self.get(id).components());
                if same {
                    proof {
                        reveal(Archetypes::fc_inv);
                        assert(self.spec_arch(id).spec_components() =~= expected@);
                        if s0.spec_arch(s0.spec_root()).spec_components().len() == 0 {
                            lemma_extend_inv(
                                self.spec_arch(cursor).spec_components(),
                                self.spec_arch(id).spec_components(),
                                components@,
                                t as int,
                            );
                        }
                    }
                    Some(id)
                } else {
                    None
                }
            },
            None => None,
        };
        match next_id {
            Some(id) => {
                proof {
                    assert forall|j: int|
                        s0.spec_inner().len() <= j < self.inner@.len() implies
                        #[trigger] created_from(*self, j, components@, t as int + 1) by {
                        reveal(created_from);
                        assert(created_from(*self, j, components@, t as int));
                    }
                    reveal(Archetypes::fc_inv);
                    assert(Archetypes::fc_inv(s0, *self, components@, id, t as int + 1));
                }
                id
            },
            None => {
                let ghost snap = *self;
                let new_id = self.create_child(cursor, head);
                proof {
                    let here = *self;
                    let pred = |e: (ComponentKey, ArchetypeId)| e.0 != head.key;
                    let pre_out = snap.spec_arch(cursor).spec_outgoing();
                    pre_out.filter_lemma(pred);
                    assert(here.spec_arch(cursor).spec_outgoing() == pre_out.filter(pred).push(
                        (head.key, new_id),
                    ));
                    // an edge of the parent under another key survives
                    assert forall|k2: ComponentKey, x: ArchetypeId|
                        #![trigger pre_out.contains((k2, x))]
                        k2 != head.key && pre_out.contains((k2, x)) implies here.spec_arch(
                        cursor,
                    ).spec_outgoing().contains((k2, x)) by {
                        let i = choose|i: int|
                            0 <= i < pre_out.len() && #[trigger] pre_out[i] == (k2, x);
                        assert(pred(pre_out[i]));
                        assert(pre_out.filter(pred).contains(pre_out[i]));
                        let w = choose|w: int|
                            0 <= w < pre_out.filter(pred).len() && pre_out.filter(pred)[w] == (
                            k2,
                            x,
                            );
                        assert(here.spec_arch(cursor).spec_outgoing()[w] == (k2, x));
                    }
                    assert(here.spec_arch(cursor).spec_outgoing().last() == (
                        head.key,
                        new_id as ArchetypeId,
                    ));
                    // previously created archetypes keep their creation facts
                    assert forall|j: int|
                        s0.spec_inner().len() <= j < snap.spec_inner().len() implies
                        #[trigger] created_from(here, j, components@, t as int + 1) by {
                        reveal(created_from);
                        assert(created_from(snap, j, components@, t as int));
                        // the index records for j carry over unchanged, and
                        // the records added now belong to the new archetype
                        assert forall|k: ComponentKey|
                            crate::index::concrete_key(k) implies (crate::index::idx_contains(
                            here.spec_index().spec_entries(),
                            k,
                            j as ArchetypeId,
                        ) <==> here.spec_arch(j as ArchetypeId).spec_has(k)) by {
                            let se = snap.spec_index().spec_entries();
                            let he = here.spec_index().spec_entries();
                            if crate::index::idx_contains(he, k, j as ArchetypeId) {
                                let i = choose|i: int|
                                    0 <= i < he.len() && (#[trigger] he[i]).key == k
                                        && he[i].arch_id == j as ArchetypeId;
                                assert(i < se.len());
                                assert(se[i] == he[i]);
                                assert(crate::index::idx_contains(se, k, j as ArchetypeId));
                                assert(snap.spec_arch(j as ArchetypeId).spec_has(k));
                                let c = choose|c: int|
                                    0 <= c < snap.spec_arch(
                                        j as ArchetypeId,
                                    ).spec_components().len() && (#[trigger] snap.spec_arch(
                                        j as ArchetypeId,
                                    ).spec_components()[c]).key == k;
                                assert(here.spec_arch(j as ArchetypeId).spec_components()[c].key
                                    == k);
                            }
                            if here.spec_arch(j as ArchetypeId).spec_has(k) {
                                let c = choose|c: int|
                                    0 <= c < here.spec_arch(
                                        j as ArchetypeId,
                                    ).spec_components().len() && (#[trigger] here.spec_arch(
                                        j as ArchetypeId,
                                    ).spec_components()[c]).key == k;
                                assert(snap.spec_arch(j as ArchetypeId).spec_components()[c].key
                                    == k);
                                assert(snap.spec_arch(j as ArchetypeId).spec_has(k));
                                assert(crate::index::idx_contains(se, k, j as ArchetypeId));
                                let i = choose|i: int|
                                    0 <= i < se.len() && (#[trigger] se[i]).key == k
                                        && se[i].arch_id == j as ArchetypeId;
                                assert(he[i] == se[i]);
                            }
                        }
                        assert forall|k: ComponentKey|
                            #![trigger crate::index::idx_backed(here.spec_index().spec_entries(), k, j as ArchetypeId)]
                            crate::index::is_wildcard_of(
                                &here.spec_arch(j as ArchetypeId),
                                k,
                            ) implies crate::index::idx_backed(
                            here.spec_index().spec_entries(),
                            k,
                            j as ArchetypeId,
                        ) by {
                            let se = snap.spec_index().spec_entries();
                            let he = here.spec_index().spec_entries();
                            let c = choose|c: int|
                                0 <= c < here.spec_arch(j as ArchetypeId).spec_components().len()
                                    && crate::index::backs_wildcard(
                                    (#[trigger] here.spec_arch(
                                        j as ArchetypeId,
                                    ).spec_components()[c]).key,
                                    k,
                                );
                            assert(crate::index::backs_wildcard(
                                snap.spec_arch(j as ArchetypeId).spec_components()[c].key,
                                k,
                            ));
                            assert(crate::index::is_wildcard_of(
                                &snap.spec_arch(j as ArchetypeId),
                                k,
                            ));
                            assert(crate::index::idx_backed(se, k, j as ArchetypeId));
                            let i = choose|i: int|
                                0 <= i < se.len() && (#[trigger] se[i]).key == k && se[i].arch_id
                                    == j as ArchetypeId && se[i].record.relation_count >= 1;
                            assert(he[i] == se[i]);
                        }
                        // matching subscribers stay attached
                        assert forall|q: int|
                            0 <= q < here.spec_subscribers().len() && arch_matches(
                                here.spec_arch(j as ArchetypeId),
                                #[trigger] here.spec_subscribers()[q],
                            ) implies exists|w: int|
                            0 <= w < here.spec_arch(j as ArchetypeId).spec_subscribers().len()
                                && (#[trigger] here.spec_arch(
                                j as ArchetypeId,
                            ).spec_subscribers()[w]).spec_required() == here.spec_subscribers()[
                                q
                            ].spec_required() && here.spec_arch(
                                j as ArchetypeId,
                            ).spec_subscribers()[w].spec_connected() == here.spec_subscribers()[
                                q
                            ].spec_connected() by {
                            assert(here.spec_subscribers() == snap.spec_subscribers());
                            assert(arch_matches(
                                snap.spec_arch(j as ArchetypeId),
                                snap.spec_subscribers()[q],
                            )) by {
                                assert forall|z: int|
                                    0 <= z < snap.spec_subscribers()[q].spec_required().len()
                                        implies snap.spec_arch(j as ArchetypeId).spec_has(
                                        #[trigger] snap.spec_subscribers()[
                                        q
                                    ].spec_required()[z],
                                    ) by {
                                    let kk = snap.spec_subscribers()[q].spec_required()[z];
                                    assert(here.spec_arch(j as ArchetypeId).spec_has(kk));
                                    let c = choose|c: int|
                                        0 <= c < here.spec_arch(
                                            j as ArchetypeId,
                                        ).spec_components().len() && (#[trigger] here.spec_arch(
                                            j as ArchetypeId,
                                        ).spec_components()[c]).key == kk;
                                    assert(snap.spec_arch(j as ArchetypeId).spec_components()[
                                        c
                                    ].key == kk);
                                }
                            }
                            let w = choose|w: int|
                                0 <= w < snap.spec_arch(
                                    j as ArchetypeId,
                                ).spec_subscribers().len() && (#[trigger] snap.spec_arch(
                                    j as ArchetypeId,
                                ).spec_subscribers()[w]).spec_required()
                                    == snap.spec_subscribers()[q].spec_required()
                                    && snap.spec_arch(j as ArchetypeId).spec_subscribers()[
                                    w
                                ].spec_connected() == snap.spec_subscribers()[
                                    q
                                ].spec_connected();
                            assert(here.spec_arch(j as ArchetypeId).spec_subscribers()
                                == snap.spec_arch(j as ArchetypeId).spec_subscribers());
                        }
                        let a0 = snap.spec_arch(j as ArchetypeId);
                        let k = a0.spec_incoming()[0].0;
                        let pp = a0.spec_incoming()[0].1;
                        if j as ArchetypeId != cursor {
                            assert(here.spec_inner()[j] == snap.spec_inner()[j]);
                        }
                        assert(here.spec_arch(j as ArchetypeId).spec_incoming()
                            == a0.spec_incoming());
                        assert(here.spec_arch(j as ArchetypeId).spec_components()
                            == a0.spec_components());
                        assert(here.spec_arch(j as ArchetypeId).spec_entities()
                            == a0.spec_entities());
                        let u0 = choose|u0: int|
                            0 <= u0 < t as int && (#[trigger] components@[u0]).key == k
                                && a0.spec_has(k);
                        if pp == cursor {
                            assert(components@[u0].key.spec_lt(components@[t as int].key));
                            let i0 = choose|i0: int|
                                0 <= i0 < snap.spec_arch(pp).spec_outgoing().len()
                                    && #[trigger] snap.spec_arch(pp).spec_outgoing()[i0] == (
                                k,
                                j as ArchetypeId,
                                );
                            assert(pre_out.contains((k, j as ArchetypeId)));
                            assert(here.spec_arch(pp).spec_outgoing().contains((
                                k,
                                j as ArchetypeId,
                            )));
                            let w = choose|w: int|
                                0 <= w < here.spec_arch(pp).spec_outgoing().len()
                                    && #[trigger] here.spec_arch(pp).spec_outgoing()[w] == (
                                k,
                                j as ArchetypeId,
                                );
                        } else {
                            assert(here.spec_inner()[pp as int] == snap.spec_inner()[pp as int]);
                        }
                    }
                    // and the new archetype carries its own
                    assert(created_from(here, new_id as int, components@, t as int + 1)) by {
                        reveal(created_from);
                        assert(here.spec_subscribers() == snap.spec_subscribers());
                        let a = here.spec_arch(new_id as ArchetypeId);
                        assert(a.spec_incoming()[0] == (head.key, cursor));
                        assert(a.spec_incoming().len() == 1);
                        let outg = here.spec_arch(cursor).spec_outgoing();
                        assert(outg[outg.len() - 1] == (head.key, new_id as ArchetypeId));
                        assert(components@[t as int] == head);
                        assert(components@[t as int].key == head.key);
                        assert(a.spec_has(head.key));
                        assert(here.spec_arch(cursor).spec_components() == snap.spec_arch(
                            cursor,
                        ).spec_components());
                        assert(t as int + 1 <= components@.len());
                        assert forall|c: int|
                            0 <= c < a.spec_components().len() implies (
                        #[trigger] a.spec_components()[c]) == components@[t as int]
                            || here.spec_arch(cursor).spec_components().contains(
                            a.spec_components()[c],
                        ) by {}
                        assert forall|c: int|
                            0 <= c < here.spec_arch(cursor).spec_components().len() implies {
                            let d = #[trigger] here.spec_arch(cursor).spec_components()[c];
                            d.key == head.key || (components@[t as int].key.object is Some
                                && components@[t as int].exclusive && d.key.id == head.key.id)
                                || a.spec_components().contains(d)
                        } by {}
                    }
                    // the generation advanced by one more
                    lemma_gen_after_compose(
                        s0.spec_gen(),
                        (snap.spec_inner().len() - s0.spec_inner().len()) as nat,
                        1,
                    );
                }
                proof {
                    let here = *self;
                    assert forall|j: int|
                        0 <= j < s0.spec_inner().len() implies ((#[trigger] here.spec_inner()[j])
                            is Some <==> s0.spec_inner()[j] is Some) by {
                        if j != cursor as int {
                            assert(here.spec_inner()[j] == snap.spec_inner()[j]);
                        } else {
                            assert(here.spec_is_live(cursor));
                            assert(snap.spec_is_live(cursor));
                        }
                    }
                    assert forall|j: int|
                        0 <= j < s0.spec_inner().len() && s0.spec_inner()[j] is Some implies (
                    #[trigger] here.spec_inner()[j])->Some_0.spec_components()
                        == s0.spec_inner()[j]->Some_0.spec_components() && here.spec_inner()[j]
                        ->Some_0.spec_entities() == s0.spec_inner()[j]->Some_0.spec_entities()
                        && here.spec_inner()[j]->Some_0.spec_cells() == s0.spec_inner()[j]
                        ->Some_0.spec_cells() by {
                        if j != cursor as int {
                            assert(here.spec_inner()[j] == snap.spec_inner()[j]);
                        } else {
                            assert(here.spec_arch(cursor).spec_components() == snap.spec_arch(
                                cursor,
                            ).spec_components());
                            assert(here.spec_arch(cursor).spec_entities() == snap.spec_arch(
                                cursor,
                            ).spec_entities());
                            assert(here.spec_arch(cursor).spec_cells() == snap.spec_arch(
                                cursor,
                            ).spec_cells());
                        }
                    }
                    // the index grew only by the new archetype's records
                    assert forall|i: int|
                        0 <= i < s0.spec_index().spec_entries().len() implies #[trigger] here
                        .spec_index().spec_entries()[i] == s0.spec_index().spec_entries()[i] by {
                        assert(here.spec_index().spec_entries()[i] == snap.spec_index().spec_entries()[i]);
                    }
                    assert forall|i: int|
                        s0.spec_index().spec_entries().len() <= i < here.spec_index().spec_entries().len() implies (#[trigger] here.spec_index().spec_entries()[i]).arch_id
                        >= s0.spec_inner().len() by {
                        if i < snap.spec_index().spec_entries().len() {
                            assert(here.spec_index().spec_entries()[i] == snap.spec_index().spec_entries()[i]);
                        } else {
                            assert(here.spec_index().spec_entries()[i].arch_id == new_id);
                        }
                    }
                    // the walk's derived-set description moves one step
                    reveal(Archetypes::fc_inv);
                    if s0.spec_arch(s0.spec_root()).spec_components().len() == 0 {
                        lemma_extend_inv(
                            snap.spec_arch(cursor).spec_components(),
                            here.spec_arch(new_id).spec_components(),
                            components@,
                            t as int,
                        );
                    }
                    reveal(Archetypes::fc_inv);
                    assert(Archetypes::fc_inv(s0, *self, components@, new_id, t as int + 1));
                }
                new_id
            },
        }
    }

    /// Returns or creates the archetype reached by walking the outgoing
    /// edges of the given components from the root, creating the missing
    /// archetypes on the way. The components must come in canonical
    /// (strictly ascending) key order. Each created archetype derives its
    /// component set from its parent under the exclusive-relation rule, is
    /// registered in the index, is linked to its parent in both directions
    /// and gets the matching subscribers; the generation counter advances
    /// once per creation. A call that creates nothing changes nothing.
    pub fn find_create(&mut self, components: &Vec<ComponentDesc>) -> (r: ArchetypeId)
        requires
            old(self).wf(),
            forall|i: int, j: int|
                #![trigger components@[i], components@[j]]
                0 <= i < j < components@.len() ==> components@[i].key.spec_lt(
                    components@[j].key,
                ),
            forall|i: int|
                0 <= i < components@.len() ==> concrete_key((#[trigger] components@[i]).key),
            old(self).spec_inner().len() + components@.len() < usize::MAX,
        ensures
            final(self).wf(),
            final(self).spec_is_live(r),
            final(self).spec_root() == old(self).spec_root(),
            final(self).spec_reserved() == old(self).spec_reserved(),
            // the store only grows, by at most one archetype per component
            old(self).spec_inner().len() <= final(self).spec_inner().len(),
            final(self).spec_inner().len() <= old(self).spec_inner().len()
                + components@.len(),
            // existing archetypes stay, with their storage untouched
            forall|j: int|
                0 <= j < old(self).spec_inner().len() ==> ((#[trigger] final(self).spec_inner()[j]) is Some <==> old(self).spec_inner()[j] is Some),
            forall|j: int|
                0 <= j < old(self).spec_inner().len() && old(self).spec_inner()[j] is Some ==> (
                #[trigger] final(self).spec_inner()[j])->Some_0.spec_components() == old(self).spec_inner()[j]->Some_0.spec_components() && final(self).spec_inner()[j]
                    ->Some_0.spec_entities() == old(self).spec_inner()[j]->Some_0.spec_entities()
                    && final(self).spec_inner()[j]->Some_0.spec_cells() == old(self).spec_inner()[j]->Some_0.spec_cells(),
            // the generation counter advances once per created archetype
            final(self).spec_gen() == gen_after(
                old(self).spec_gen(),
                (final(self).spec_inner().len() - old(self).spec_inner().len()) as nat,
            ),
            // a call that creates nothing changes nothing
            final(self).spec_inner().len() == old(self).spec_inner().len() ==> *final(self)
                == *old(self),
            // every created archetype is derived from its parent by one of
            // the requested descriptors under the exclusive-relation rule
            forall|j: int|
                old(self).spec_inner().len() <= j < final(self).spec_inner().len()
                    ==> #[trigger] created_from(
                    *final(self),
                    j,
                    components@,
                    components@.len() as int,
                ),
            // the last requested component is present in the result
            components@.len() > 0 ==> final(self).spec_arch(r).spec_has(
                components@.last().key,
            ),
            components@.len() == 0 ==> r == old(self).spec_root(),
            final(self).spec_subscribers() == old(self).spec_subscribers(),
            // the result's component set holds exactly the requested
            // descriptors that no later requested exclusive relation drops
            old(self).spec_arch(old(self).spec_root()).spec_components().len() == 0 ==> forall|
                d: ComponentDesc,
            |
                #![trigger final(self).spec_arch(r).spec_components().contains(d)]
                final(self).spec_arch(r).spec_components().contains(d) <==> exists|u: int|
                    0 <= u < components@.len() && #[trigger] components@[u] == d && fc_survives(
                        components@,
                        u,
                        components@.len() as int,
                    ),
    {
        let n = components.len();
        let ghost s0 = *self;
        let mut cursor: ArchetypeId = self.root;
        proof {
            reveal(Archetypes::fc_inv);
            assert(Archetypes::fc_inv(s0, *self, components@, cursor, 0));
        }
        let mut t: usize = 0;
        while t < n
            invariant
                n == components@.len(),
                t <= n,
                s0 == *old(self),
                forall|i: int, j: int|
                    #![trigger components@[i], components@[j]]
                    0 <= i < j < components@.len() ==> components@[i].key.spec_lt(
                        components@[j].key,
                    ),
                forall|i: int|
                    0 <= i < components@.len() ==> concrete_key((#[trigger] components@[i]).key),
                s0.spec_inner().len() + components@.len() < usize::MAX,
                Archetypes::fc_inv(s0, *self, components@, cursor, t as int),
                t == 0 ==> cursor == s0.spec_root(),
                t > 0 ==> self.spec_arch(cursor).spec_has(components@[t as int - 1].key),
            decreases n - t,
        {
            cursor = self.walk_or_create(cursor, components, t, Ghost(s0));
            t = t + 1;
        }
        proof {
            reveal(Archetypes::fc_inv);
            if n > 0 {
                assert(components@.last() == components@[n - 1]);
            }
            assert forall|j: int|
                s0.spec_inner().len() <= j < self.inner@.len() implies #[trigger] created_from(
                *self,
                j,
                components@,
                components@.len() as int,
            ) by {
                reveal(created_from);
                assert(created_from(*self, j, components@, n as int));
            }
        }
        cursor
    }

    /// Writes one component value on an entity's row: in place when the
    /// row's archetype already stores the key, else by moving the row to
    /// the archetype extended by the descriptor (created as needed) and
    /// writing the value there. Returns the new location, the value the key
    /// held before, and the entity moved into the freed slot when the row
    /// moved.
    #[verifier::rlimit(100)]
    #[verifier::spinoff_prover]
    pub fn set_component(
        &mut self,
        arch_id: ArchetypeId,
        slot: usize,
        desc: ComponentDesc,
        value: Vec<u8>,
        tick: u32,
    ) -> (r: ((ArchetypeId, usize), Option<Vec<u8>>, Option<Entity>))
        requires
            old(self).wf(),
            old(self).spec_is_live(arch_id),
            slot < old(self).spec_arch(arch_id).spec_len(),
            value@.len() == desc.size,
            concrete_key(desc.key),
            old(self).spec_arch(old(self).spec_root()).spec_components().len() == 0,
            old(self).spec_inner().len() + old(self).spec_arch(arch_id).spec_components().len()
                + 1 < usize::MAX,
            // machine limit: every row count leaves room for one more
            forall|j: int|
                0 <= j < old(self).spec_inner().len() && (#[trigger] old(self).spec_inner()[j]) is Some ==> old(self).spec_inner()[j]->Some_0.spec_entities().len() < usize::MAX,
            // a stored descriptor of the same key names the same layout
            forall|c: int|
                0 <= c < old(self).spec_arch(arch_id).spec_components().len() && (#[trigger] old(
                    self,
                ).spec_arch(arch_id).spec_components()[c]).key == desc.key ==> old(
                    self,
                ).spec_arch(arch_id).spec_components()[c].size == desc.size,
        ensures
            final(self).wf(),
            final(self).spec_is_live(r.0.0),
            final(self).spec_is_live(arch_id),
            r.0.1 < final(self).spec_arch(r.0.0).spec_len(),
            final(self).spec_root() == old(self).spec_root(),
            // the key was already stored: the value is overwritten in place
            // and the old value returned
            old(self).spec_arch(arch_id).spec_has(desc.key) ==> {
                &&& r.0 == (arch_id, slot)
                &&& r.2 is None
                &&& r.1 is Some
                &&& final(self).spec_gen() == old(self).spec_gen()
                &&& final(self).spec_index() == old(self).spec_index()
                &&& final(self).spec_subscribers() == old(self).spec_subscribers()
                &&& exists|ci: int|
                    0 <= ci < old(self).spec_arch(arch_id).spec_components().len() && (
                    #[trigger] old(self).spec_arch(arch_id).spec_components()[ci]).key == desc.key
                        && r.1->Some_0@ == old(self).spec_arch(arch_id).spec_cells()[
                        ci
                    ].storage@[slot as int]@ && final(self).spec_arch(arch_id).spec_cells()[
                        ci
                    ].storage@ == old(self).spec_arch(arch_id).spec_cells()[ci].storage@.update(
                        slot as int,
                        value,
                    ) && final(self).spec_arch(arch_id).spec_cells()[ci].changes@
                        == crate::changes::set_result(
                        old(self).spec_arch(arch_id).spec_cells()[ci].changes@,
                        crate::changes::Change {
                            slice: crate::slice::Slice { start: slot, end: (slot + 1) as usize },
                            tick,
                            kind: crate::changes::ChangeKind::Modified,
                        },
                    ) && (forall|k: int|
                        0 <= k < old(self).spec_arch(arch_id).spec_cells().len() && k != ci
                            ==> #[trigger] final(self).spec_arch(arch_id).spec_cells()[k] == old(
                            self,
                        ).spec_arch(arch_id).spec_cells()[k])
                &&& final(self).spec_arch(arch_id).spec_entities() == old(self).spec_arch(
                    arch_id,
                ).spec_entities()
                &&& forall|j: int|
                    0 <= j < old(self).spec_inner().len() && j != arch_id as int
                        ==> #[trigger] final(self).spec_inner()[j] == old(self).spec_inner()[j]
            },
            // the key was missing: the row moves to the extended archetype
            !old(self).spec_arch(arch_id).spec_has(desc.key) ==> {
                &&& r.1 is None
                &&& r.0.0 != arch_id ==> {
                    &&& r.0.1 == final(self).spec_arch(r.0.0).spec_len() - 1
                    &&& final(self).spec_arch(r.0.0).spec_entities().last() == old(
                        self,
                    ).spec_arch(arch_id).spec_entities()[slot as int]
                    &&& final(self).spec_arch(arch_id).spec_entities() == old(self).spec_arch(
                        arch_id,
                    ).spec_entities().update(
                        slot as int,
                        old(self).spec_arch(arch_id).spec_entities().last(),
                    ).drop_last()
                    &&& r.2 == (if slot + 1 == old(self).spec_arch(arch_id).spec_len() {
                        Option::<Entity>::None
                    } else {
                        Option::Some(old(self).spec_arch(arch_id).spec_entities().last())
                    })
                    &&& final(self).spec_arch(r.0.0).spec_has(desc.key) ==> exists|ci: int|
                        0 <= ci < final(self).spec_arch(r.0.0).spec_components().len() && (
                        #[trigger] final(self).spec_arch(r.0.0).spec_components()[ci]).key
                            == desc.key && final(self).spec_arch(r.0.0).spec_cells()[ci].storage@[
                            r.0.1 as int
                        ]@ == value@
                }
                // the destination's component set, when no exclusive
                // relation of the row's own set interferes
                &&& ((forall|c: int|
                    0 <= c < old(self).spec_arch(arch_id).spec_components().len()
                        ==> !knocked_by(
                        desc,
                        #[trigger] old(self).spec_arch(arch_id).spec_components()[c],
                    )) && (forall|c1: int, c2: int|
                    #![trigger old(self).spec_arch(arch_id).spec_components()[c1], old(self).spec_arch(arch_id).spec_components()[c2]]
                    0 <= c1 < old(self).spec_arch(arch_id).spec_components().len() && 0 <= c2
                        < old(self).spec_arch(arch_id).spec_components().len() ==> !knocked_by(
                        old(self).spec_arch(arch_id).spec_components()[c1],
                        old(self).spec_arch(arch_id).spec_components()[c2],
                    ))) ==> forall|d: ComponentDesc|
                    #![trigger final(self).spec_arch(r.0.0).spec_components().contains(d)]
                    final(self).spec_arch(r.0.0).spec_components().contains(d) <==> (d == desc || (
                    old(self).spec_arch(arch_id).spec_components().contains(d) && d.key
                        != desc.key && !knocked_by(d, desc)))
            },
    {
        let in_place = self.get(arch_id).component_index(&desc.key);
        match in_place {
            Some(ci) => {
                let ghost pre = self.inner@;
                let arch = self.get_mut(arch_id);
                let old_value = copy_bytes(&arch.cell(ci).storage[slot]);
                arch.write_value(ci, slot, value, tick);
                proof {
                    assert forall|j: int|
                        0 <= j < pre.len() implies ((#[trigger] self.inner@[j]) is Some <==> pre[j]
                        is Some) by {
                        if j != arch_id as int {
                            assert(self.inner@[j] == pre[j]);
                        }
                    }
                    assert forall|j: int, c: int|
                        #![trigger self.inner@[j]->Some_0.spec_components()[c]]
                        0 <= j < self.inner@.len() && self.inner@[j] is Some && 0 <= c
                            < self.inner@[j]->Some_0.spec_components().len() implies concrete_key(
                        self.inner@[j]->Some_0.spec_components()[c].key,
                    ) by {
                        if j != arch_id as int {
                            assert(self.inner@[j] == pre[j]);
                        } else {
                            assert(self.inner@[j]->Some_0.spec_components() == pre[
                                j
                            ]->Some_0.spec_components());
                        }
                    }
                }
                ((arch_id, slot), Some(old_value), None)
            },
            None => {
                let comps;
                {
                    let arch = self.get(arch_id);
                    comps = extend_components(arch.components(), desc);
                }
                let ghost s0 = *self;
                let dst_id = self.find_create(&comps);
                if dst_id == arch_id {
                    // the requested key did not survive its own extension:
                    // the row stays where it is
                    proof {
                        if (forall|c: int|
                            0 <= c < s0.spec_arch(arch_id).spec_components().len()
                                ==> !knocked_by(
                                desc,
                                #[trigger] s0.spec_arch(arch_id).spec_components()[c],
                            )) && (forall|c1: int, c2: int|
                            #![trigger s0.spec_arch(arch_id).spec_components()[c1], s0.spec_arch(arch_id).spec_components()[c2]]
                            0 <= c1 < s0.spec_arch(arch_id).spec_components().len() && 0 <= c2
                                < s0.spec_arch(arch_id).spec_components().len() ==> !knocked_by(
                                s0.spec_arch(arch_id).spec_components()[c1],
                                s0.spec_arch(arch_id).spec_components()[c2],
                            )) {
                            lemma_extend_survivors(
                                s0.spec_arch(arch_id).spec_components(),
                                comps@,
                                desc,
                            );
                            assert(self.spec_arch(arch_id).spec_components().contains(desc));
                            assert(self.spec_arch(arch_id).spec_components() == s0.spec_arch(
                                arch_id,
                            ).spec_components());
                            let c = choose|c: int|
                                0 <= c < s0.spec_arch(arch_id).spec_components().len() && (
                                #[trigger] s0.spec_arch(arch_id).spec_components()[c]) == desc;
                            assert(s0.spec_arch(arch_id).spec_has(desc.key));
                            assert(false);
                        }
                    }
                    return ((arch_id, slot), None, None);
                }
                proof {
                    assert(self.spec_arch(arch_id).spec_entities() == s0.spec_arch(
                        arch_id,
                    ).spec_entities());
                    assert(self.spec_arch(arch_id).spec_components() == s0.spec_arch(
                        arch_id,
                    ).spec_components());
                }
                let ghost fc1 = *self;
                let src = match self.inner[arch_id].take() {
                    Some(a) => a,
                    None => vstd::pervasive::unreached(),
                };
                let mut src = src;
                let ghost mid = *self;
                let dst = self.get_mut(dst_id);
                proof {
                    // shared keys share their layout: every destination
                    // descriptor is the requested one or one of the source's
                    assert forall|dj: int, si: int|
                        0 <= dj < dst.spec_components().len() && 0 <= si
                            < src.spec_components().len() && (#[trigger] dst.spec_components()[
                            dj
                        ]).key == (#[trigger] src.spec_components()[si]).key implies
                        dst.spec_components()[dj].size == src.spec_components()[si].size by {
                        assert(mid.spec_arch(dst_id).spec_components().contains(
                            dst.spec_components()[dj],
                        ));
                        let u = choose|u: int|
                            0 <= u < comps@.len() && #[trigger] comps@[u]
                                == dst.spec_components()[dj] && fc_survives(
                                comps@,
                                u,
                                comps@.len() as int,
                            );
                        if comps@[u] == desc {
                            assert(src.spec_components()[si].key == desc.key);
                            assert(s0.spec_arch(arch_id).spec_has(desc.key));
                        } else {
                            assert(s0.spec_arch(arch_id).spec_components().contains(comps@[u]));
                            let z = choose|z: int|
                                0 <= z < s0.spec_arch(arch_id).spec_components().len()
                                    && #[trigger] s0.spec_arch(arch_id).spec_components()[z]
                                    == comps@[u];
                            if z != si {
                                assert(s0.spec_arch(arch_id).spec_components()[z].key.spec_lt(
                                    s0.spec_arch(arch_id).spec_components()[si].key,
                                ) || s0.spec_arch(arch_id).spec_components()[si].key.spec_lt(
                                    s0.spec_arch(arch_id).spec_components()[z].key,
                                ));
                            }
                        }
                    }
                    // the destination has room for one more row: it existed
                    // with room, or it was just created empty
                    assert(dst.spec_len() < usize::MAX) by {
                        if dst_id < s0.spec_inner().len() {
                            assert(mid.spec_arch(dst_id).spec_entities() == s0.spec_arch(
                                dst_id,
                            ).spec_entities());
                        } else {
                            reveal(created_from);
                            assert(created_from(fc1, dst_id as int, comps@, comps@.len() as int));
                            assert(fc1.spec_arch(dst_id).spec_entities().len() == 0);
                            assert(mid.spec_arch(dst_id) == fc1.spec_arch(dst_id));
                        }
                    }
                }
                let (dst_slot, moved) = src.move_to(dst, slot, tick);
                match dst.component_index(&desc.key) {
                    Some(di) => {
                        proof {
                            // the destination descriptor under the key is
                            // the requested one: the source lacks the key
                            assert(dst.spec_components()[di as int].size == desc.size) by {
                                assert(mid.spec_arch(dst_id).spec_components().contains(
                                    dst.spec_components()[di as int],
                                ));
                                let u = choose|u: int|
                                    0 <= u < comps@.len() && #[trigger] comps@[u]
                                        == dst.spec_components()[di as int] && fc_survives(
                                        comps@,
                                        u,
                                        comps@.len() as int,
                                    );
                                if comps@[u] != desc {
                                    assert(s0.spec_arch(arch_id).spec_components().contains(
                                        comps@[u],
                                    ));
                                    assert(s0.spec_arch(arch_id).spec_has(desc.key));
                                }
                            }
                        }
                        dst.write_value(di, dst_slot, value, tick);
                    },
                    None => {},
                }
                self.inner[arch_id] = Some(src);
                proof {
                    let here = *self;
                    assert(here.spec_is_live(arch_id));
                    assert(here.spec_is_live(dst_id));
                    assert(here.wf()) by {
                        assert forall|j: int|
                            0 <= j < here.spec_inner().len() && (
                            #[trigger] here.spec_inner()[j]) is Some implies here.spec_inner()[j]
                            ->Some_0.wf() by {
                            if j != arch_id as int && j != dst_id as int {
                                assert(here.spec_inner()[j] == mid.spec_inner()[j]);
                            }
                        }
                        assert forall|j: int, c: int|
                            #![trigger here.spec_inner()[j]->Some_0.spec_components()[c]]
                            0 <= j < here.spec_inner().len() && here.spec_inner()[j] is Some && 0
                                <= c < here.spec_inner()[j]->Some_0.spec_components().len()
                            implies concrete_key(
                            here.spec_inner()[j]->Some_0.spec_components()[c].key,
                        ) by {
                            if j != arch_id as int && j != dst_id as int {
                                assert(here.spec_inner()[j] == mid.spec_inner()[j]);
                            } else if j == arch_id as int {
                                assert(here.spec_inner()[j]->Some_0.spec_components()
                                    == mid.spec_inner()[j]->Some_0.spec_components()
                                    || here.spec_inner()[j]->Some_0.spec_components()
                                    == s0.spec_arch(arch_id).spec_components());
                            } else {
                                assert(here.spec_inner()[j]->Some_0.spec_components()
                                    == mid.spec_arch(dst_id).spec_components());
                            }
                        }
                        assert forall|i: int|
                            0 <= i < here.spec_index().spec_entries().len() implies
                        here.spec_is_live(
                            (#[trigger] here.spec_index().spec_entries()[i]).arch_id,
                        ) by {
                            assert(mid.spec_is_live(here.spec_index().spec_entries()[i].arch_id)
                                || here.spec_index().spec_entries()[i].arch_id == arch_id);
                        }
                    }
                    // the destination's component set under the
                    // no-interference condition
                    if (forall|c: int|
                        0 <= c < s0.spec_arch(arch_id).spec_components().len() ==> !knocked_by(
                            desc,
                            #[trigger] s0.spec_arch(arch_id).spec_components()[c],
                        )) && (forall|c1: int, c2: int|
                        #![trigger s0.spec_arch(arch_id).spec_components()[c1], s0.spec_arch(arch_id).spec_components()[c2]]
                        0 <= c1 < s0.spec_arch(arch_id).spec_components().len() && 0 <= c2
                            < s0.spec_arch(arch_id).spec_components().len() ==> !knocked_by(
                            s0.spec_arch(arch_id).spec_components()[c1],
                            s0.spec_arch(arch_id).spec_components()[c2],
                        )) {
                        lemma_extend_survivors(
                            s0.spec_arch(arch_id).spec_components(),
                            comps@,
                            desc,
                        );
                        assert(here.spec_arch(dst_id).spec_components() == mid.spec_arch(
                            dst_id,
                        ).spec_components());
                        assert forall|d: ComponentDesc|
                            #![trigger here.spec_arch(dst_id).spec_components().contains(d)]
                            here.spec_arch(dst_id).spec_components().contains(d) <==> (d == desc
                                || (s0.spec_arch(arch_id).spec_components().contains(d) && d.key
                                != desc.key && !knocked_by(d, desc))) by {
                            assert(mid.spec_arch(dst_id).spec_components().contains(d) <==> exists|
                                u: int,
                            |
                                0 <= u < comps@.len() && #[trigger] comps@[u] == d
                                    && fc_survives(comps@, u, comps@.len() as int));
                        }
                    }
                }
                ((dst_id, dst_slot), None, moved)
            },
        }
    }

    /// Removes one component from an entity's row: `MissingComponent` when
    /// the row's archetype lacks the key; else the row moves to the
    /// archetype without the key (created as needed) and the removed value
    /// comes back with the new location and the entity moved into the freed
    /// slot.
    #[verifier::rlimit(100)]
    #[verifier::spinoff_prover]
    pub fn remove_component(
        &mut self,
        arch_id: ArchetypeId,
        slot: usize,
        key: &ComponentKey,
        id: Entity,
        tick: u32,
    ) -> (r: Result<((ArchetypeId, usize), Vec<u8>, Option<Entity>), Error>)
        requires
            old(self).wf(),
            old(self).spec_is_live(arch_id),
            slot < old(self).spec_arch(arch_id).spec_len(),
            old(self).spec_arch(old(self).spec_root()).spec_components().len() == 0,
            old(self).spec_inner().len() + old(self).spec_arch(arch_id).spec_components().len()
                < usize::MAX,
            forall|j: int|
                0 <= j < old(self).spec_inner().len() && (#[trigger] old(self).spec_inner()[j]) is Some ==> old(self).spec_inner()[j]->Some_0.spec_entities().len() < usize::MAX,
        ensures
            final(self).wf(),
            final(self).spec_is_live(arch_id),
            final(self).spec_root() == old(self).spec_root(),
            r is Err <==> !old(self).spec_arch(arch_id).spec_has(*key),
            r is Err ==> r->Err_0 == Error::MissingComponent(id, *key) && *final(self) == *old(
                self,
            ),
            r is Ok ==> {
                let ((did, dslot), _, _) = r->Ok_0;
                &&& final(self).spec_is_live(did)
                &&& did != arch_id
                &&& dslot < final(self).spec_arch(did).spec_len()
                &&& exists|ci: int|
                    0 <= ci < old(self).spec_arch(arch_id).spec_components().len() && (
                    #[trigger] old(self).spec_arch(arch_id).spec_components()[ci]).key == *key
                        && r->Ok_0.1@ == old(self).spec_arch(arch_id).spec_cells()[ci].storage@[
                        slot as int
                    ]@
                &&& dslot == final(self).spec_arch(did).spec_len() - 1
                &&& final(self).spec_arch(did).spec_entities().last() == old(self).spec_arch(
                    arch_id,
                ).spec_entities()[slot as int]
                &&& final(self).spec_arch(arch_id).spec_entities() == old(self).spec_arch(
                    arch_id,
                ).spec_entities().update(
                    slot as int,
                    old(self).spec_arch(arch_id).spec_entities().last(),
                ).drop_last()
                &&& r->Ok_0.2 == (if slot + 1 == old(self).spec_arch(arch_id).spec_len() {
                    Option::<Entity>::None
                } else {
                    Option::Some(old(self).spec_arch(arch_id).spec_entities().last())
                })
                // the destination holds exactly the other components, when
                // no exclusive relation among them interferes
                &&& (forall|c1: int, c2: int|
                    #![trigger old(self).spec_arch(arch_id).spec_components()[c1], old(self).spec_arch(arch_id).spec_components()[c2]]
                    0 <= c1 < old(self).spec_arch(arch_id).spec_components().len() && 0 <= c2
                        < old(self).spec_arch(arch_id).spec_components().len() ==> !knocked_by(
                        old(self).spec_arch(arch_id).spec_components()[c1],
                        old(self).spec_arch(arch_id).spec_components()[c2],
                    )) ==> forall|d: ComponentDesc|
                    #![trigger final(self).spec_arch(did).spec_components().contains(d)]
                    final(self).spec_arch(did).spec_components().contains(d) <==> (old(
                        self,
                    ).spec_arch(arch_id).spec_components().contains(d) && d.key != *key)
            },
    {
        let ci = match self.get(arch_id).component_index(key) {
            Some(ci) => ci,
            None => {
                return Err(Error::MissingComponent(id, *key));
            },
        };
        let mut comps: Vec<ComponentDesc> = Vec::new();
        {
            let all = self.get(arch_id).components();
            let mut c: usize = 0;
            while c < all.len()
                invariant
                    all@ == old(self).spec_arch(arch_id).spec_components(),
                    c <= all@.len(),
                    comps@.len() <= c as int,
                    forall|p: int, q: int|
                        #![trigger comps@[p], comps@[q]]
                        0 <= p < q < comps@.len() ==> comps@[p].key.spec_lt(comps@[q].key),
                    forall|p: int|
                        0 <= p < comps@.len() ==> exists|z: int|
                            0 <= z < c as int && #[trigger] comps@[p] == all@[z],
                    forall|z: int|
                        0 <= z < c as int && (#[trigger] all@[z]).key != *key ==> comps@.contains(
                            all@[z],
                        ),
                    forall|p: int| 0 <= p < comps@.len() ==> (#[trigger] comps@[p]).key != *key,
                    forall|i: int, j: int|
                        #![trigger all@[i], all@[j]]
                        0 <= i < j < all@.len() ==> all@[i].key.spec_lt(all@[j].key),
                decreases all@.len() - c,
            {
                let d = all[c];
                let ghost comps0 = comps@;
                if !(d.key == *key) {
                    comps.push(d);
                    proof {
                        assert forall|p: int, q: int|
                            #![trigger comps@[p], comps@[q]]
                            0 <= p < q < comps@.len() implies comps@[p].key.spec_lt(
                            comps@[q].key,
                        ) by {
                            assert(comps@[p] == comps0[p]);
                            if q < comps@.len() - 1 {
                                assert(comps@[q] == comps0[q]);
                            } else {
                                let z = choose|z: int|
                                    0 <= z < c as int && #[trigger] comps0[p] == all@[z];
                                assert(all@[z].key.spec_lt(all@[c as int].key));
                            }
                        }
                        assert forall|p: int| 0 <= p < comps@.len() implies exists|z: int|
                            0 <= z < c as int + 1 && #[trigger] comps@[p] == all@[z] by {
                            if p < comps@.len() - 1 {
                                assert(comps@[p] == comps0[p]);
                                let z = choose|z: int|
                                    0 <= z < c as int && #[trigger] comps0[p] == all@[z];
                            } else {
                                assert(comps@[p] == all@[c as int]);
                            }
                        }
                    }
                }
                proof {
                    assert forall|z: int|
                        0 <= z < c as int + 1 && (#[trigger] all@[z]).key != *key implies comps@
                        .contains(all@[z]) by {
                        if z < c as int {
                            let p = choose|p: int|
                                0 <= p < comps0.len() && #[trigger] comps0[p] == all@[z];
                            assert(comps@[p] == all@[z]);
                        } else {
                            assert(comps@[comps@.len() - 1] == all@[z]);
                        }
                    }
                }
                c = c + 1;
            }
        }
        proof {
            assert forall|i: int| 0 <= i < comps@.len() implies concrete_key(
                (#[trigger] comps@[i]).key,
            ) by {
                let z = choose|z: int|
                    0 <= z < old(self).spec_arch(arch_id).spec_components().len()
                        && #[trigger] comps@[i] == old(self).spec_arch(arch_id).spec_components()[
                        z
                    ];
            }
        }
        let value = copy_bytes(&self.get(arch_id).cell(ci).storage[slot]);
        let ghost s0 = *self;
        let dst_id = self.find_create(&comps);
        proof {
            // the walk cannot end in the source archetype: the source holds
            // the key and no requested descriptor carries it
            assert(dst_id != arch_id) by {
                if dst_id == arch_id {
                    assert(self.spec_arch(arch_id).spec_components() == s0.spec_arch(
                        arch_id,
                    ).spec_components());
                    let d0 = s0.spec_arch(arch_id).spec_components()[ci as int];
                    assert(self.spec_arch(dst_id).spec_components().contains(d0));
                    let u = choose|u: int|
                        0 <= u < comps@.len() && #[trigger] comps@[u] == d0 && fc_survives(
                            comps@,
                            u,
                            comps@.len() as int,
                        );
                    assert(comps@[u].key != *key);
                }
            }
        }
        let ghost fc1 = *self;
        let src = match self.inner[arch_id].take() {
            Some(a) => a,
            None => vstd::pervasive::unreached(),
        };
        let mut src = src;
        let ghost mid = *self;
        let dst = self.get_mut(dst_id);
        proof {
            assert forall|dj: int, si: int|
                0 <= dj < dst.spec_components().len() && 0 <= si < src.spec_components().len()
                    && (#[trigger] dst.spec_components()[dj]).key == (
                #[trigger] src.spec_components()[si]).key implies dst.spec_components()[dj].size
                == src.spec_components()[si].size by {
                assert(mid.spec_arch(dst_id).spec_components().contains(
                    dst.spec_components()[dj],
                ));
                let u = choose|u: int|
                    0 <= u < comps@.len() && #[trigger] comps@[u] == dst.spec_components()[dj]
                        && fc_survives(comps@, u, comps@.len() as int);
                assert(s0.spec_arch(arch_id).spec_components().contains(comps@[u]));
                let z = choose|z: int|
                    0 <= z < s0.spec_arch(arch_id).spec_components().len() && #[trigger] s0
                        .spec_arch(arch_id).spec_components()[z] == comps@[u];
                if z != si {
                    assert(s0.spec_arch(arch_id).spec_components()[z].key.spec_lt(
                        s0.spec_arch(arch_id).spec_components()[si].key,
                    ) || s0.spec_arch(arch_id).spec_components()[si].key.spec_lt(
                        s0.spec_arch(arch_id).spec_components()[z].key,
                    ));
                }
            }
            assert(dst.spec_len() < usize::MAX) by {
                if dst_id < s0.spec_inner().len() {
                    assert(mid.spec_arch(dst_id).spec_entities() == s0.spec_arch(
                        dst_id,
                    ).spec_entities());
                } else {
                    reveal(created_from);
                    assert(created_from(fc1, dst_id as int, comps@, comps@.len() as int));
                    assert(fc1.spec_arch(dst_id).spec_entities().len() == 0);
                    assert(mid.spec_arch(dst_id) == fc1.spec_arch(dst_id));
                }
            }
        }
        let (dst_slot, moved) = src.move_to(dst, slot, tick);
        self.inner[arch_id] = Some(src);
        proof {
            let here = *self;
            assert(here.spec_is_live(arch_id));
            assert(here.spec_is_live(dst_id));
            assert(here.wf()) by {
                assert forall|j: int|
                    0 <= j < here.spec_inner().len() && (#[trigger] here.spec_inner()[j])
                        is Some implies here.spec_inner()[j]->Some_0.wf() by {
                    if j != arch_id as int && j != dst_id as int {
                        assert(here.spec_inner()[j] == mid.spec_inner()[j]);
                    }
                }
                assert forall|j: int, c: int|
                    #![trigger here.spec_inner()[j]->Some_0.spec_components()[c]]
                    0 <= j < here.spec_inner().len() && here.spec_inner()[j] is Some && 0 <= c
                        < here.spec_inner()[j]->Some_0.spec_components().len() implies
                concrete_key(here.spec_inner()[j]->Some_0.spec_components()[c].key) by {
                    if j != arch_id as int && j != dst_id as int {
                        assert(here.spec_inner()[j] == mid.spec_inner()[j]);
                    } else if j == arch_id as int {
                        assert(here.spec_inner()[j]->Some_0.spec_components() == s0.spec_arch(
                            arch_id,
                        ).spec_components());
                    } else {
                        assert(here.spec_inner()[j]->Some_0.spec_components() == mid.spec_arch(
                            dst_id,
                        ).spec_components());
                    }
                }
                assert forall|i: int|
                    0 <= i < here.spec_index().spec_entries().len() implies here.spec_is_live(
                    (#[trigger] here.spec_index().spec_entries()[i]).arch_id,
                ) by {
                    assert(mid.spec_is_live(here.spec_index().spec_entries()[i].arch_id)
                        || here.spec_index().spec_entries()[i].arch_id == arch_id);
                }
            }
            // the destination's component set under the no-interference
            // condition
            if (forall|c1: int, c2: int|
                #![trigger s0.spec_arch(arch_id).spec_components()[c1], s0.spec_arch(arch_id).spec_components()[c2]]
                0 <= c1 < s0.spec_arch(arch_id).spec_components().len() && 0 <= c2 < s0.spec_arch(
                    arch_id,
                ).spec_components().len() ==> !knocked_by(
                    s0.spec_arch(arch_id).spec_components()[c1],
                    s0.spec_arch(arch_id).spec_components()[c2],
                )) {
                assert(here.spec_arch(dst_id).spec_components() == mid.spec_arch(
                    dst_id,
                ).spec_components());
                assert forall|d: ComponentDesc|
                    #![trigger here.spec_arch(dst_id).spec_components().contains(d)]
                    here.spec_arch(dst_id).spec_components().contains(d) <==> (s0.spec_arch(
                        arch_id,
                    ).spec_components().contains(d) && d.key != *key) by {
                    assert(mid.spec_arch(dst_id).spec_components().contains(d) <==> exists|u: int|
                        0 <= u < comps@.len() && #[trigger] comps@[u] == d && fc_survives(
                            comps@,
                            u,
                            comps@.len() as int,
                        ));
                    if mid.spec_arch(dst_id).spec_components().contains(d) {
                        let u = choose|u: int|
                            0 <= u < comps@.len() && #[trigger] comps@[u] == d && fc_survives(
                                comps@,
                                u,
                                comps@.len() as int,
                            );
                        assert(s0.spec_arch(arch_id).spec_components().contains(comps@[u]));
                    }
                    if s0.spec_arch(arch_id).spec_components().contains(d) && d.key != *key {
                        let z = choose|z: int|
                            0 <= z < s0.spec_arch(arch_id).spec_components().len() && #[trigger] s0
                                .spec_arch(arch_id).spec_components()[z] == d;
                        assert(comps@.contains(d));
                        let u = choose|u: int| 0 <= u < comps@.len() && #[trigger] comps@[u] == d;
                        assert(fc_survives(comps@, u, comps@.len() as int)) by {
                            assert forall|v: int| u < v < comps@.len() implies !knocked_by(
                                comps@[u],
                                #[trigger] comps@[v],
                            ) by {
                                let z2 = choose|z2: int|
                                    0 <= z2 < s0.spec_arch(arch_id).spec_components().len()
                                        && #[trigger] comps@[v] == s0.spec_arch(
                                        arch_id,
                                    ).spec_components()[z2];
                                assert(!knocked_by(
                                    s0.spec_arch(arch_id).spec_components()[z],
                                    s0.spec_arch(arch_id).spec_components()[z2],
                                ));
                            }
                        }
                    }
                }
            }
        }
        Ok(((dst_id, dst_slot), value, moved))
    }

}

} // verus!