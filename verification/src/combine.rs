//! The combiner: merges fontstacks from several fonts into a single
//! stack, earlier inputs winning on duplicate glyph ids.

use crate::model::Fontstack;
use crate::model::FontstackModel;
use crate::model::Glyph;
use crate::model::GlyphModel;
use crate::model::Glyphs;
use crate::model::GlyphsModel;
use vstd::hash_set::HashSetWithView;
use vstd::prelude::*;
use vstd::string::StrSliceExecFns;
use vstd::string::StringExecFns;

verus! {

broadcast use vstd::std_specs::hash::axiom_u32_obeys_hash_table_key_model;

/// The models of a run of glyph records.
pub open spec fn glyph_models(v: Seq<Glyph>) -> Seq<GlyphModel> {
    v.map_values(|g: Glyph| g@)
}

/// The models of a run of collections.
pub open spec fn glyphs_models(v: Seq<Glyphs>) -> Seq<GlyphsModel> {
    v.map_values(|g: Glyphs| g@)
}

/// The models of a run of fontstacks.
pub open spec fn stack_models(v: Seq<Fontstack>) -> Seq<FontstackModel> {
    v.map_values(|s: Fontstack| s@)
}

/// Taking the first record off a run takes the first model off its
/// models.
proof fn lemma_glyph_models_step(pre: Seq<Glyph>)
    requires
        pre.len() > 0,
    ensures
        glyph_models(pre)[0] == pre[0]@,
        glyph_models(pre.remove(0)) =~= glyph_models(pre).drop_first(),
{
    assert forall|k: int| 0 <= k < pre.remove(0).len() implies glyph_models(pre.remove(0))[k]
        == glyph_models(pre).drop_first()[k] by {
        assert(pre.remove(0)[k] == pre[k + 1]);
    }
}

/// Taking the first collection off a run takes the first model off its
/// models.
proof fn lemma_glyphs_models_step(pre: Seq<Glyphs>)
    requires
        pre.len() > 0,
    ensures
        glyphs_models(pre)[0] == pre[0]@,
        glyphs_models(pre.remove(0)) =~= glyphs_models(pre).drop_first(),
{
    assert forall|k: int| 0 <= k < pre.remove(0).len() implies glyphs_models(pre.remove(0))[k]
        == glyphs_models(pre).drop_first()[k] by {
        assert(pre.remove(0)[k] == pre[k + 1]);
    }
}

/// Taking the first fontstack off a run takes the first model off its
/// models.
proof fn lemma_stack_models_step(pre: Seq<Fontstack>)
    requires
        pre.len() > 0,
    ensures
        stack_models(pre)[0] == pre[0]@,
        stack_models(pre.remove(0)) =~= stack_models(pre).drop_first(),
{
    assert forall|k: int| 0 <= k < pre.remove(0).len() implies stack_models(pre.remove(0))[k]
        == stack_models(pre).drop_first()[k] by {
        assert(pre.remove(0)[k] == pre[k + 1]);
    }
}

/// Every fontstack of the inputs, in input order.
pub open spec fn input_stacks(v: Seq<GlyphsModel>) -> Seq<FontstackModel>
    decreases v.len(),
{
    if v.len() == 0 {
        Seq::empty()
    } else {
        v[0].stacks + input_stacks(v.drop_first())
    }
}

/// Every glyph of a run of fontstacks, in order.
pub open spec fn stacks_glyphs(ss: Seq<FontstackModel>) -> Seq<GlyphModel>
    decreases ss.len(),
{
    if ss.len() == 0 {
        Seq::empty()
    } else {
        ss[0].glyphs + stacks_glyphs(ss.drop_first())
    }
}

/// A stack's name, or nothing when it has none.
pub open spec fn stack_name_chars(s: FontstackModel) -> Seq<char> {
    match s.name {
        Some(n) => n,
        None => Seq::empty(),
    }
}

/// The names of a run of fontstacks, joined by comma and space: every
/// stack contributes, named or not, with or without glyphs.
pub open spec fn joined_name(ss: Seq<FontstackModel>) -> Seq<char>
    decreases ss.len(),
{
    if ss.len() == 0 {
        Seq::empty()
    } else if ss.len() == 1 {
        stack_name_chars(ss[0])
    } else {
        joined_name(ss.drop_last()) + seq![',', ' '] + stack_name_chars(ss.last())
    }
}

/// The ids a run of glyph records carries.
pub open spec fn glyph_ids(gs: Seq<GlyphModel>) -> Set<u32>
    decreases gs.len(),
{
    if gs.len() == 0 {
        Set::empty()
    } else {
        match gs[0].id {
            Some(id) => glyph_ids(gs.drop_first()).insert(id),
            None => glyph_ids(gs.drop_first()),
        }
    }
}

/// The glyphs kept by first-seen-wins de-duplication: a glyph stays
/// exactly when it has an id that neither `seen` nor any earlier glyph
/// carries.
pub open spec fn retained_glyphs(gs: Seq<GlyphModel>, seen: Set<u32>) -> Seq<GlyphModel>
    decreases gs.len(),
{
    if gs.len() == 0 {
        Seq::empty()
    } else {
        match gs[0].id {
            Some(id) => if seen.contains(id) {
                retained_glyphs(gs.drop_first(), seen)
            } else {
                seq![gs[0]] + retained_glyphs(gs.drop_first(), seen.insert(id))
            },
            None => retained_glyphs(gs.drop_first(), seen),
        }
    }
}

/// The least id of a run of glyph records, folded left to right from
/// `acc`.
pub open spec fn fold_min_id(gs: Seq<GlyphModel>, acc: u32) -> u32
    decreases gs.len(),
{
    if gs.len() == 0 {
        acc
    } else {
        fold_min_id(
            gs.drop_first(),
            match gs[0].id {
                Some(id) => if id < acc {
                    id
                } else {
                    acc
                },
                None => acc,
            },
        )
    }
}

/// The greatest id of a run of glyph records, folded left to right from
/// `acc`.
pub open spec fn fold_max_id(gs: Seq<GlyphModel>, acc: u32) -> u32
    decreases gs.len(),
{
    if gs.len() == 0 {
        acc
    } else {
        fold_max_id(
            gs.drop_first(),
            match gs[0].id {
                Some(id) => if id > acc {
                    id
                } else {
                    acc
                },
                None => acc,
            },
        )
    }
}

/// The glyphs the combiner keeps from the given inputs.
pub open spec fn combined_glyphs(v: Seq<GlyphsModel>) -> Seq<GlyphModel> {
    retained_glyphs(stacks_glyphs(input_stacks(v)), Set::empty())
}

/// The folded least id really is one: it never exceeds any id the run
/// carries, and unless it stayed at `acc` some glyph carries it.
pub proof fn lemma_fold_min_is_least(gs: Seq<GlyphModel>, acc: u32)
    ensures
        fold_min_id(gs, acc) <= acc,
        forall|i: int|
            0 <= i < gs.len() && gs[i].id is Some ==> fold_min_id(gs, acc) <= (#[trigger] gs[i].id)->0,
        fold_min_id(gs, acc) == acc || exists|i: int|
            0 <= i < gs.len() && (#[trigger] gs[i].id) == Some(fold_min_id(gs, acc)),
    decreases gs.len(),
{
    if gs.len() > 0 {
        let next = match gs[0].id {
            Some(id) => if id < acc {
                id
            } else {
                acc
            },
            None => acc,
        };
        lemma_fold_min_is_least(gs.drop_first(), next);
        let m = fold_min_id(gs, acc);
        assert(forall|i: int|
            1 <= i < gs.len() ==> (#[trigger] gs[i].id) == gs.drop_first()[i - 1].id);
        if m != acc {
            if m == next {
                assert(gs[0].id == Some(m));
            } else {
                let w = choose|i: int|
                    0 <= i < gs.drop_first().len() && (#[trigger] gs.drop_first()[i].id) == Some(m);
                assert(gs[w + 1].id == Some(m));
            }
        }
    }
}

/// The folded greatest id really is one: it is at least any id the run
/// carries, and unless it stayed at `acc` some glyph carries it.
pub proof fn lemma_fold_max_is_greatest(gs: Seq<GlyphModel>, acc: u32)
    ensures
        fold_max_id(gs, acc) >= acc,
        forall|i: int|
            0 <= i < gs.len() && gs[i].id is Some ==> fold_max_id(gs, acc) >= (#[trigger] gs[i].id)->0,
        fold_max_id(gs, acc) == acc || exists|i: int|
            0 <= i < gs.len() && (#[trigger] gs[i].id) == Some(fold_max_id(gs, acc)),
    decreases gs.len(),
{
    if gs.len() > 0 {
        let next = match gs[0].id {
            Some(id) => if id > acc {
                id
            } else {
                acc
            },
            None => acc,
        };
        lemma_fold_max_is_greatest(gs.drop_first(), next);
        let m = fold_max_id(gs, acc);
        assert(forall|i: int|
            1 <= i < gs.len() ==> (#[trigger] gs[i].id) == gs.drop_first()[i - 1].id);
        if m != acc {
            if m == next {
                assert(gs[0].id == Some(m));
            } else {
                let w = choose|i: int|
                    0 <= i < gs.drop_first().len() && (#[trigger] gs.drop_first()[i].id) == Some(m);
                assert(gs[w + 1].id == Some(m));
            }
        }
    }
}

/// After de-duplication every kept glyph has an id, the ids avoid
/// `seen`, and no two kept glyphs share one: lookups by id in a combined
/// stack are unambiguous.
pub proof fn lemma_retained_ids_distinct(gs: Seq<GlyphModel>, seen: Set<u32>)
    ensures
        forall|i: int|
            0 <= i < retained_glyphs(gs, seen).len() ==> (#[trigger] retained_glyphs(gs, seen)[i].id
                is Some && !seen.contains(retained_glyphs(gs, seen)[i].id->0)),
        forall|i: int, j: int|
            0 <= i < j < retained_glyphs(gs, seen).len() ==> #[trigger] retained_glyphs(
                gs,
                seen,
            )[i].id != #[trigger] retained_glyphs(gs, seen)[j].id,
    decreases gs.len(),
{
    if gs.len() > 0 {
        let kept = retained_glyphs(gs, seen);
        match gs[0].id {
            Some(id) => {
                if seen.contains(id) {
                    lemma_retained_ids_distinct(gs.drop_first(), seen);
                } else {
                    lemma_retained_ids_distinct(gs.drop_first(), seen.insert(id));
                    let rest = retained_glyphs(gs.drop_first(), seen.insert(id));
                    assert(kept == seq![gs[0]] + rest);
                    assert(kept[0] == gs[0]);
                    assert(forall|k: int| 1 <= k < kept.len() ==> #[trigger] kept[k] == rest[k
                        - 1]);
                }
            },
            None => {
                lemma_retained_ids_distinct(gs.drop_first(), seen);
            },
        }
    }
}

/// The glyphs of the combiner's merged stack carry pairwise distinct
/// ids, so a lookup by id finds at most one record.
pub proof fn lemma_combined_ids_distinct(v: Seq<GlyphsModel>)
    ensures
        forall|i: int, j: int|
            0 <= i < j < combined_glyphs(v).len() ==> #[trigger] combined_glyphs(v)[i].id
                != #[trigger] combined_glyphs(v)[j].id,
{
    lemma_retained_ids_distinct(stacks_glyphs(input_stacks(v)), Set::empty());
}

/// The ids of concatenated runs are the union of the runs' ids.
proof fn lemma_ids_append(a: Seq<GlyphModel>, b: Seq<GlyphModel>)
    ensures
        glyph_ids(a + b) == glyph_ids(a).union(glyph_ids(b)),
    decreases a.len(),
{
    if a.len() == 0 {
        assert(a + b =~= b);
        assert(glyph_ids(a).union(glyph_ids(b)) =~= glyph_ids(b));
    } else {
        assert((a + b).drop_first() =~= a.drop_first() + b);
        lemma_ids_append(a.drop_first(), b);
        match a[0].id {
            Some(id) => {
                assert(glyph_ids(a.drop_first()).union(glyph_ids(b)).insert(id) =~= glyph_ids(
                    a.drop_first(),
                ).insert(id).union(glyph_ids(b)));
            },
            None => {},
        }
    }
}

/// De-duplicating a concatenation keeps the first run's survivors, then
/// the second run's with the first run's ids also seen.
proof fn lemma_retained_append(a: Seq<GlyphModel>, b: Seq<GlyphModel>, seen: Set<u32>)
    ensures
        retained_glyphs(a + b, seen) == retained_glyphs(a, seen) + retained_glyphs(
            b,
            seen.union(glyph_ids(a)),
        ),
    decreases a.len(),
{
    if a.len() == 0 {
        assert(a + b =~= b);
        assert(seen.union(glyph_ids(a)) =~= seen);
        assert(retained_glyphs(a, seen) + retained_glyphs(b, seen) =~= retained_glyphs(b, seen));
    } else {
        assert((a + b).drop_first() =~= a.drop_first() + b);
        match a[0].id {
            Some(id) => {
                if seen.contains(id) {
                    lemma_retained_append(a.drop_first(), b, seen);
                    assert(seen.union(glyph_ids(a.drop_first())) =~= seen.union(glyph_ids(a)));
                } else {
                    lemma_retained_append(a.drop_first(), b, seen.insert(id));
                    assert(seen.insert(id).union(glyph_ids(a.drop_first())) =~= seen.union(
                        glyph_ids(a),
                    ));
                    assert(seq![a[0]] + (retained_glyphs(a.drop_first(), seen.insert(id))
                        + retained_glyphs(b, seen.union(glyph_ids(a)))) =~= (seq![a[0]]
                        + retained_glyphs(a.drop_first(), seen.insert(id))) + retained_glyphs(
                        b,
                        seen.union(glyph_ids(a)),
                    ));
                }
            },
            None => {
                lemma_retained_append(a.drop_first(), b, seen);
            },
        }
    }
}

/// Folding the least id over a concatenation folds the runs in turn.
proof fn lemma_fold_min_append(a: Seq<GlyphModel>, b: Seq<GlyphModel>, acc: u32)
    ensures
        fold_min_id(a + b, acc) == fold_min_id(b, fold_min_id(a, acc)),
    decreases a.len(),
{
    if a.len() == 0 {
        assert(a + b =~= b);
    } else {
        assert((a + b).drop_first() =~= a.drop_first() + b);
        let next = match a[0].id {
            Some(id) => if id < acc {
                id
            } else {
                acc
            },
            None => acc,
        };
        lemma_fold_min_append(a.drop_first(), b, next);
    }
}

/// Folding the greatest id over a concatenation folds the runs in turn.
proof fn lemma_fold_max_append(a: Seq<GlyphModel>, b: Seq<GlyphModel>, acc: u32)
    ensures
        fold_max_id(a + b, acc) == fold_max_id(b, fold_max_id(a, acc)),
    decreases a.len(),
{
    if a.len() == 0 {
        assert(a + b =~= b);
    } else {
        assert((a + b).drop_first() =~= a.drop_first() + b);
        let next = match a[0].id {
            Some(id) => if id > acc {
                id
            } else {
                acc
            },
            None => acc,
        };
        lemma_fold_max_append(a.drop_first(), b, next);
    }
}

/// One more collection's stacks extend the flattened run at its end.
proof fn lemma_input_stacks_snoc(v: Seq<GlyphsModel>, g: GlyphsModel)
    ensures
        input_stacks(v.push(g)) == input_stacks(v) + g.stacks,
    decreases v.len(),
{
    if v.len() == 0 {
        assert(v.push(g).drop_first() =~= Seq::<GlyphsModel>::empty());
        assert(v.push(g)[0] == g);
        assert(input_stacks(Seq::<GlyphsModel>::empty()) == Seq::<FontstackModel>::empty());
        assert(input_stacks(v.push(g)) =~= input_stacks(v) + g.stacks);
    } else {
        assert(v.push(g).drop_first() =~= v.drop_first().push(g));
        lemma_input_stacks_snoc(v.drop_first(), g);
        assert(v.push(g)[0] == v[0]);
        assert(input_stacks(v.push(g)) =~= input_stacks(v) + g.stacks);
    }
}

/// One more fontstack extends the flattened glyph run at its end.
proof fn lemma_stacks_glyphs_snoc(ss: Seq<FontstackModel>, s: FontstackModel)
    ensures
        stacks_glyphs(ss.push(s)) == stacks_glyphs(ss) + s.glyphs,
    decreases ss.len(),
{
    if ss.len() == 0 {
        assert(ss.push(s).drop_first() =~= Seq::<FontstackModel>::empty());
        assert(ss.push(s)[0] == s);
        assert(stacks_glyphs(Seq::<FontstackModel>::empty()) == Seq::<GlyphModel>::empty());
        assert(stacks_glyphs(ss.push(s)) =~= stacks_glyphs(ss) + s.glyphs);
    } else {
        assert(ss.push(s).drop_first() =~= ss.drop_first().push(s));
        lemma_stacks_glyphs_snoc(ss.drop_first(), s);
        assert(ss.push(s)[0] == ss[0]);
        assert(stacks_glyphs(ss.push(s)) =~= stacks_glyphs(ss) + s.glyphs);
    }
}

/// The combiner's merged collection, when anything is retained: one
/// fontstack whose name joins every input stack's name, whose range spans
/// the least and greatest retained id, and whose glyphs are the retained
/// ones in input order.
pub open spec fn combined_model(v: Seq<GlyphsModel>) -> GlyphsModel {
    let ss = input_stacks(v);
    let kept = combined_glyphs(v);
    GlyphsModel {
        stacks: seq![
            FontstackModel {
                name: Some(joined_name(ss)),
                range: Some(
                    crate::text::spec_range_label(
                        fold_min_id(kept, u32::MAX) as nat,
                        fold_max_id(kept, 0) as nat,
                    ),
                ),
                glyphs: kept,
            },
        ],
    }
}

/// The combiner's running state after some prefix of the input stacks:
/// the joined name, the retained glyphs, the ids seen, and the id bounds.
pub(crate) open spec fn combine_state(
    done: Seq<FontstackModel>,
    name: Seq<char>,
    any: bool,
    kept: Seq<GlyphModel>,
    seen: Set<u32>,
    start: u32,
    end: u32,
) -> bool {
    &&& any == (done.len() > 0)
    &&& name == joined_name(done)
    &&& kept == retained_glyphs(stacks_glyphs(done), Set::<u32>::empty())
    &&& seen == Set::<u32>::empty().union(glyph_ids(stacks_glyphs(done)))
    &&& start == fold_min_id(retained_glyphs(stacks_glyphs(done), Set::<u32>::empty()), u32::MAX)
    &&& end == fold_max_id(retained_glyphs(stacks_glyphs(done), Set::<u32>::empty()), 0)
}

/// Folds one run of glyph records into the combined output: keeps each
/// glyph whose id is new, and widens the id bounds by the kept glyphs.
fn append_retained(
    out: &mut Vec<Glyph>,
    seen: &mut HashSetWithView<u32>,
    start: &mut u32,
    end: &mut u32,
    glyphs: Vec<Glyph>,
)
    ensures
        glyph_models(final(out)@) == glyph_models(old(out)@) + retained_glyphs(
            glyph_models(glyphs@),
            old(seen)@,
        ),
        final(seen)@ == old(seen)@.union(glyph_ids(glyph_models(glyphs@))),
        *final(start) == fold_min_id(
            retained_glyphs(glyph_models(glyphs@), old(seen)@),
            *old(start),
        ),
        *final(end) == fold_max_id(retained_glyphs(glyph_models(glyphs@), old(seen)@), *old(end)),
{
    let ghost gsall = glyph_models(glyphs@);
    let ghost seen0 = seen@;
    let ghost out0 = glyph_models(out@);
    let ghost start0 = *start;
    let ghost end0 = *end;
    let mut glyphs = glyphs;
    proof {
        assert(glyph_models(glyphs@) =~= gsall.skip(0));
        assert(gsall.take(0) =~= Seq::<GlyphModel>::empty());
        assert(glyph_ids(Seq::<GlyphModel>::empty()) == Set::<u32>::empty());
        assert(retained_glyphs(Seq::<GlyphModel>::empty(), seen0) == Seq::<GlyphModel>::empty());
        assert(seen@ =~= seen0.union(Set::<u32>::empty()));
        assert(glyph_models(out@) =~= out0 + Seq::<GlyphModel>::empty());
    }
    while glyphs.len() > 0
        invariant
            glyphs@.len() <= gsall.len(),
            glyph_models(glyphs@) == gsall.skip(gsall.len() - glyphs@.len()),
            glyph_models(out@) == out0 + retained_glyphs(
                gsall.take(gsall.len() - glyphs@.len()),
                seen0,
            ),
            seen@ == seen0.union(glyph_ids(gsall.take(gsall.len() - glyphs@.len()))),
            *start == fold_min_id(
                retained_glyphs(gsall.take(gsall.len() - glyphs@.len()), seen0),
                start0,
            ),
            *end == fold_max_id(
                retained_glyphs(gsall.take(gsall.len() - glyphs@.len()), seen0),
                end0,
            ),
        decreases glyphs@.len(),
    {
        let ghost i = gsall.len() - glyphs@.len();
        let ghost pre_glyphs = glyphs@;
        let g = glyphs.remove(0);
        proof {
            lemma_glyph_models_step(pre_glyphs);
            assert(g@ == gsall[i as int]);
            assert(gsall.skip(i as int).drop_first() =~= gsall.skip(i as int + 1));
            assert(glyph_models(glyphs@) =~= gsall.skip(i as int + 1));
        }
        let ghost outmid = out@;
        let ghost seenmid = seen@;
        let ghost startmid = *start;
        let ghost endmid = *end;
        match g.id {
            Some(id) => {
                if seen.insert(id) {
                    if id < *start {
                        *start = id;
                    }
                    if id > *end {
                        *end = id;
                    }
                    out.push(g);
                }
            },
            None => {},
        }
        proof {
            let gm = gsall[i as int];
            let one = seq![gm];
            let taken = gsall.take(i as int);
            let kept1 = retained_glyphs(one, seenmid);
            assert(gsall.take(i as int + 1) =~= taken + one);
            assert(one.drop_first() =~= Seq::<GlyphModel>::empty());
            assert(glyph_ids(Seq::<GlyphModel>::empty()) == Set::<u32>::empty());
            lemma_retained_append(taken, one, seen0);
            lemma_ids_append(taken, one);
            assert(seenmid == seen0.union(glyph_ids(taken)));
            lemma_fold_min_append(retained_glyphs(taken, seen0), kept1, start0);
            lemma_fold_max_append(retained_glyphs(taken, seen0), kept1, end0);
            match gm.id {
                Some(id) => {
                    assert(glyph_ids(one) =~= Set::<u32>::empty().insert(id));
                    if seenmid.contains(id) {
                        assert(retained_glyphs(Seq::<GlyphModel>::empty(), seenmid) == Seq::<
                            GlyphModel,
                        >::empty());
                        assert(kept1 =~= Seq::<GlyphModel>::empty());
                        assert(glyph_models(out@) =~= glyph_models(outmid) + kept1);
                    } else {
                        assert(retained_glyphs(Seq::<GlyphModel>::empty(), seenmid.insert(id))
                            == Seq::<GlyphModel>::empty());
                        assert(kept1 =~= one);
                        lemma_glyph_models_push(outmid, g);
                        assert(glyph_models(out@) =~= glyph_models(outmid) + kept1);
                    }
                    assert(seen@ =~= seen0.union(glyph_ids(gsall.take(i as int + 1))));
                    if seenmid.contains(id) {
                        assert(fold_min_id(Seq::<GlyphModel>::empty(), startmid) == startmid);
                        assert(fold_max_id(Seq::<GlyphModel>::empty(), endmid) == endmid);
                    } else {
                        let stepped_min: u32 = if id < startmid {
                            id
                        } else {
                            startmid
                        };
                        let stepped_max: u32 = if id > endmid {
                            id
                        } else {
                            endmid
                        };
                        assert(fold_min_id(one, startmid) == fold_min_id(
                            Seq::<GlyphModel>::empty(),
                            stepped_min,
                        ));
                        assert(fold_min_id(Seq::<GlyphModel>::empty(), stepped_min) == stepped_min);
                        assert(fold_max_id(one, endmid) == fold_max_id(
                            Seq::<GlyphModel>::empty(),
                            stepped_max,
                        ));
                        assert(fold_max_id(Seq::<GlyphModel>::empty(), stepped_max) == stepped_max);
                    }
                    assert(fold_min_id(kept1, startmid) == *start);
                    assert(fold_max_id(kept1, endmid) == *end);
                },
                None => {
                    assert(retained_glyphs(Seq::<GlyphModel>::empty(), seenmid) == Seq::<
                        GlyphModel,
                    >::empty());
                    assert(kept1 =~= Seq::<GlyphModel>::empty());
                    assert(glyph_ids(one) =~= Set::<u32>::empty());
                    assert(glyph_models(out@) =~= glyph_models(outmid) + kept1);
                    assert(seen@ =~= seen0.union(glyph_ids(gsall.take(i as int + 1))));
                    assert(fold_min_id(Seq::<GlyphModel>::empty(), startmid) == startmid);
                    assert(fold_max_id(Seq::<GlyphModel>::empty(), endmid) == endmid);
                },
            }
            assert(glyph_models(out@) =~= out0 + retained_glyphs(gsall.take(i as int + 1), seen0));
        }
    }
    proof {
        assert(gsall.take(gsall.len() as int) =~= gsall);
    }
}

/// Pushing one record onto a run pushes its model onto the models.
proof fn lemma_glyph_models_push(pre: Seq<Glyph>, g: Glyph)
    ensures
        glyph_models(pre.push(g)) =~= glyph_models(pre).push(g@),
{
    assert forall|k: int| 0 <= k < pre.push(g).len() implies glyph_models(pre.push(g))[k]
        == glyph_models(pre).push(g@)[k] by {
        if k < pre.len() {
            assert(pre.push(g)[k] == pre[k]);
        } else {
            assert(pre.push(g)[k] == g);
        }
    }
}

/// Combines a list of glyph collections into a single fontstack, the
/// input order giving precedence: when several glyphs share an id, only
/// the first is kept.  The merged stack's name joins every input stack's
/// name, named or not, with or without glyphs; its range spans the
/// retained ids.  Returns nothing when no glyph is retained; building an
/// empty message is the caller's business.
#[must_use]
pub fn combine_glyphs(glyphs_to_combine: Vec<Glyphs>) -> (r: Option<Glyphs>)
    ensures
        match r {
            None => combined_glyphs(glyphs_models(glyphs_to_combine@)).len() == 0,
            Some(out) => {
                &&& combined_glyphs(glyphs_models(glyphs_to_combine@)).len() > 0
                &&& out@ == combined_model(glyphs_models(glyphs_to_combine@))
            },
        },
{
    let ghost models = glyphs_models(glyphs_to_combine@);
    let mut name_acc = String::new();
    let mut any_stack = false;
    let mut result_glyphs: Vec<Glyph> = Vec::new();
    let mut coverage: HashSetWithView<u32> = HashSetWithView::<u32>::new();
    let mut start: u32 = u32::MAX;
    let mut end: u32 = 0;
    let mut inputs = glyphs_to_combine;
    proof {
        assert(glyph_ids(Seq::<GlyphModel>::empty()) == Set::<u32>::empty());
        assert(retained_glyphs(Seq::<GlyphModel>::empty(), Set::<u32>::empty()) == Seq::<
            GlyphModel,
        >::empty());
        assert(glyphs_models(inputs@) =~= models.skip(0));
        assert(models.take(0) =~= Seq::<GlyphsModel>::empty());
        assert(input_stacks(Seq::<GlyphsModel>::empty()) == Seq::<FontstackModel>::empty());
        assert(glyph_models(result_glyphs@) =~= Seq::<GlyphModel>::empty());
        assert(stacks_glyphs(Seq::<FontstackModel>::empty()) == Seq::<GlyphModel>::empty());
        assert(coverage@ =~= Set::<u32>::empty().union(Set::<u32>::empty()));
    }
    while inputs.len() > 0
        invariant
            inputs@.len() <= models.len(),
            glyphs_models(inputs@) == models.skip(models.len() - inputs@.len()),
            combine_state(
                input_stacks(models.take(models.len() - inputs@.len())),
                name_acc@,
                any_stack,
                glyph_models(result_glyphs@),
                coverage@,
                start,
                end,
            ),
        decreases inputs@.len(),
    {
        let ghost i = models.len() - inputs@.len();
        let ghost pre_inputs = inputs@;
        let one = inputs.remove(0);
        proof {
            lemma_glyphs_models_step(pre_inputs);
            assert(one@ == models[i as int]);
            assert(models.skip(i as int).drop_first() =~= models.skip(i as int + 1));
            assert(glyphs_models(inputs@) =~= models.skip(i as int + 1));
        }
        let mut stacks = one.stacks;
        let ghost stackmodels = stack_models(stacks@);
        let ghost sdone = input_stacks(models.take(i as int));
        proof {
            assert(stack_models(stacks@) =~= stackmodels.skip(0));
            assert(stackmodels.take(0) =~= Seq::<FontstackModel>::empty());
            assert(sdone + stackmodels.take(0) =~= sdone);
            assert(stackmodels =~= models[i as int].stacks);
        }
        while stacks.len() > 0
            invariant
                stacks@.len() <= stackmodels.len(),
                stack_models(stacks@) == stackmodels.skip(
                    stackmodels.len() - stacks@.len(),
                ),
                combine_state(
                    sdone + stackmodels.take(stackmodels.len() - stacks@.len()),
                    name_acc@,
                    any_stack,
                    glyph_models(result_glyphs@),
                    coverage@,
                    start,
                    end,
                ),
            decreases stacks@.len(),
        {
            let ghost j = stackmodels.len() - stacks@.len();
            let ghost before = sdone + stackmodels.take(j as int);
            let ghost pre_stacks = stacks@;
            let s = stacks.remove(0);
            proof {
                lemma_stack_models_step(pre_stacks);
                assert(s@ == stackmodels[j as int]);
                assert(stackmodels.skip(j as int).drop_first() =~= stackmodels.skip(j as int + 1));
                assert(stack_models(stacks@) =~= stackmodels.skip(j as int + 1));
            }
            if any_stack {
                name_acc.append(", ");
            }
            match &s.name {
                Some(n) => name_acc.append(n.as_str()),
                None => {},
            }
            any_stack = true;
            proof {
                reveal_strlit(", ");
                assert(", "@ =~= seq![',', ' ']);
                assert(before.push(s@).drop_last() =~= before);
                assert(before.push(s@).last() == s@);
                assert(name_acc@ =~= joined_name(before.push(s@)));
            }
            let ghost seen0 = coverage@;
            append_retained(&mut result_glyphs, &mut coverage, &mut start, &mut end, s.glyphs);
            proof {
                lemma_stacks_glyphs_snoc(before, s@);
                let a = stacks_glyphs(before);
                let b = s@.glyphs;
                lemma_retained_append(a, b, Set::<u32>::empty());
                lemma_ids_append(a, b);
                assert(seen0 =~= Set::<u32>::empty().union(glyph_ids(a)));
                lemma_fold_min_append(
                    retained_glyphs(a, Set::<u32>::empty()),
                    retained_glyphs(b, Set::<u32>::empty().union(glyph_ids(a))),
                    u32::MAX,
                );
                lemma_fold_max_append(
                    retained_glyphs(a, Set::<u32>::empty()),
                    retained_glyphs(b, Set::<u32>::empty().union(glyph_ids(a))),
                    0,
                );
                assert(coverage@ =~= Set::<u32>::empty().union(
                    glyph_ids(stacks_glyphs(before.push(s@))),
                ));
                assert(before.push(s@) =~= sdone + stackmodels.take(j as int + 1));
            }
        }
        proof {
            assert(stackmodels.take(stackmodels.len() as int) =~= stackmodels);
            lemma_input_stacks_snoc(models.take(i as int), models[i as int]);
            assert(models.take(i as int).push(models[i as int]) =~= models.take(i as int + 1));
            assert(sdone + stackmodels =~= input_stacks(models.take(i as int + 1)));
        }
    }
    proof {
        assert(models.take(models.len() as int) =~= models);
    }
    if result_glyphs.len() == 0 {
        proof {
            assert(combined_glyphs(models).len() == glyph_models(result_glyphs@).len());
        }
        return None;
    }
    let range = crate::text::range_label(start, end);
    let stack = Fontstack { name: Some(name_acc), range: Some(range), glyphs: result_glyphs };
    let mut stacks: Vec<Fontstack> = Vec::new();
    stacks.push(stack);
    let out = Glyphs { stacks };
    proof {
        assert(out@.stacks =~= combined_model(models).stacks);
    }
    Some(out)
}

/// A run of names joined by comma and space.
pub open spec fn joined_names(names: Seq<Seq<char>>) -> Seq<char>
    decreases names.len(),
{
    if names.len() == 0 {
        Seq::empty()
    } else if names.len() == 1 {
        names[0]
    } else {
        joined_names(names.drop_last()) + seq![',', ' '] + names.last()
    }
}

/// Joins font names with comma and space, the conventional name of a
/// merged stack.
pub fn join_names(names: &Vec<String>) -> (r: String)
    ensures
        r@ == joined_names(names@.map_values(|s: String| s@)),
{
    let ghost goal = names@.map_values(|s: String| s@);
    let mut acc = String::new();
    let mut i: usize = 0;
    proof {
        assert(goal.take(0) =~= Seq::<Seq<char>>::empty());
    }
    while i < names.len()
        invariant
            i <= names.len(),
            goal == names@.map_values(|s: String| s@),
            goal.len() == names@.len(),
            acc@ == joined_names(goal.take(i as int)),
        decreases names.len() - i,
    {
        if i > 0 {
            acc.append(", ");
        }
        acc.append(names[i].as_str());
        proof {
            reveal_strlit(", ");
            assert(", "@ =~= seq![',', ' ']);
            assert(goal.take(i as int + 1).drop_last() =~= goal.take(i as int));
            assert(goal.take(i as int + 1).last() == goal[i as int]);
            assert(acc@ =~= joined_names(goal.take(i as int + 1)));
        }
        i = i + 1;
    }
    proof {
        assert(goal.take(goal.len() as int) =~= goal);
    }
    acc
}

/// The single empty fontstack a caller synthesizes when a combination
/// retains nothing: just the stack name and the queried range.
pub fn empty_font_stack(stack_name: String, start: u32, end: u32) -> (r: Glyphs)
    ensures
        r@.stacks == seq![
            FontstackModel {
                name: Some(stack_name@),
                range: Some(crate::text::spec_range_label(start as nat, end as nat)),
                glyphs: Seq::<GlyphModel>::empty(),
            },
        ],
{
    let range = crate::text::range_label(start, end);
    let stack = Fontstack { name: Some(stack_name), range: Some(range), glyphs: Vec::new() };
    let mut stacks: Vec<Fontstack> = Vec::new();
    stacks.push(stack);
    let out = Glyphs { stacks };
    proof {
        assert(stack.glyphs@.map_values(|g: Glyph| g@) =~= Seq::<GlyphModel>::empty());
        assert(out@.stacks =~= seq![stack@]);
    }
    out
}

} // verus!
