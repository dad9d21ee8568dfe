//! Engine: apply a batch of base-color requests to the palette embedded in
//! a document's color-variable list. A request with a `#rrggbb` value
//! generates a full tonal scale and reconciles it into its group; any other
//! value links the request to an existing group's anchor color. Every error
//! aborts before anything is written back, so a failed run leaves the
//! variables untouched.

use vstd::prelude::*;

use crate::adapter::{
    appended_len, belongs, lemma_appended_len_nonneg, group_vars, has_duplicate, is_entry_of, is_var_of, kept_vars, load,
    removed_name, save, var_key, ColorVariable,
};
use crate::errors::UpdateError;
use crate::palette::{
    distinct_suffixes, ensure_group, first_gen_matching, gen_suffix, gen_unmatched, group_at_mut,
    index_of_group, index_of_suffix, lemma_index_of_group, link_by_name, link_name, merge_one,
    merged_scale, reconcile_scale, step_qualified, step_suffix, clear_group, Palette,
    PaletteEntry,
};
use crate::scale::{
    gen_hex, generate, is_public_stop, stop_value, BaseColorRequest, GeneratedColor,
};
use crate::strutil::{
    dec_str, first_segment, first_segment_of, lemma_dec_str_digits, trailing_segment,
};

verus! {

/// Which of the two historically coexisting merge behaviors to apply.
#[derive(Clone, Copy, Debug, PartialEq, Eq, Structural)]
pub enum MergePolicy {
    /// Remove every existing entry of the addressed group first, then
    /// insert the whole scale afresh: every stop gets a new identity.
    FullReplace,
    /// Keep matching entries' stable ids across regenerations, advancing
    /// their version counters; only unmatched stops get new identities.
    PreserveIdentities,
}

/// The nine generated colors of one generative request, one per canonical
/// stop, ascending, with the deterministic redistributed hex values.
pub open spec fn is_scale_of(gens: Seq<GeneratedColor>, req: BaseColorRequest) -> bool {
    gens.len() == 9 && forall|i: int|
        0 <= i < 9 ==> (#[trigger] gens[i]).name@ == req.name@ && gens[i].stop == stop_value(i)
            && gens[i].hex@ == gen_hex(
            req.value@,
            req.lightness_min as int,
            req.lightness_max as int,
            req.anchor_stop as int,
            stop_value(i),
        )
}

/// The shape of a successful generative merge: only the group keyed by the
/// first segment of the request name changes (appended when new), and its
/// entries are the merge of the generated scale into the old entries (into
/// nothing, under the full-replace policy).
pub open spec fn generative_effect(
    old_pal: Palette,
    new_pal: Palette,
    req: BaseColorRequest,
    prefix: Seq<char>,
    policy: MergePolicy,
    gens: Seq<GeneratedColor>,
) -> bool {
    let groups = old_pal.groups@;
    let gkey = first_segment(req.name@);
    let idx = index_of_group(groups, gkey);
    if idx >= 0 {
        new_pal.groups@.len() == groups.len() && (forall|j: int|
            0 <= j < groups.len() && j != idx ==> new_pal.groups@[j] == groups[j])
            && new_pal.groups@[idx].name == groups[idx].name && merged_scale(
            prefix,
            gkey,
            if policy is FullReplace {
                Seq::<PaletteEntry>::empty()
            } else {
                groups[idx].entries@
            },
            gens,
            new_pal.groups@[idx].entries@,
        )
    } else {
        new_pal.groups@.len() == groups.len() + 1 && (forall|j: int|
            0 <= j < groups.len() ==> new_pal.groups@[j] == groups[j])
            && new_pal.groups@.last().name@ == gkey && merged_scale(
            prefix,
            gkey,
            Seq::<PaletteEntry>::empty(),
            gens,
            new_pal.groups@.last().entries@,
        )
    }
}

/// The decimal texts of two different public stops differ.
proof fn lemma_stop_text_distinct(s1: int, s2: int)
    requires
        is_public_stop(s1),
        is_public_stop(s2),
        s1 != s2,
    ensures
        dec_str(s1 as nat) != dec_str(s2 as nat),
{
    reveal_with_fuel(dec_str, 4);
    assert(dec_str(100nat) =~= seq!['1', '0', '0']);
    assert(dec_str(200nat) =~= seq!['2', '0', '0']);
    assert(dec_str(300nat) =~= seq!['3', '0', '0']);
    assert(dec_str(400nat) =~= seq!['4', '0', '0']);
    assert(dec_str(500nat) =~= seq!['5', '0', '0']);
    assert(dec_str(600nat) =~= seq!['6', '0', '0']);
    assert(dec_str(700nat) =~= seq!['7', '0', '0']);
    assert(dec_str(800nat) =~= seq!['8', '0', '0']);
    assert(dec_str(900nat) =~= seq!['9', '0', '0']);
    assert(dec_str(s1 as nat)[0] != dec_str(s2 as nat)[0]);
}

/// A generated scale addresses nine different suffixes: one per stop.
proof fn lemma_scale_distinct_suffixes(gens: Seq<GeneratedColor>, req: BaseColorRequest)
    requires
        is_scale_of(gens, req),
    ensures
        distinct_suffixes(gens),
{
    assert forall|a: int, b: int| 0 <= a < b < gens.len() implies step_suffix(#[trigger] gens[a])
        != step_suffix(#[trigger] gens[b]) by {
        let stem = trailing_segment(req.name@);
        lemma_stop_text_distinct(stop_value(a), stop_value(b));
        let da = dec_str(gens[a].stop as nat);
        let db = dec_str(gens[b].stop as nat);
        let sa = gen_suffix(stem, gens[a].stop as nat);
        let sb = gen_suffix(stem, gens[b].stop as nat);
        assert(step_suffix(gens[a]) == sa);
        assert(step_suffix(gens[b]) == sb);
        if sa == sb {
            lemma_dec_str_digits(gens[a].stop as nat);
            lemma_dec_str_digits(gens[b].stop as nat);
            assert(sa.len() == stem.len() + 1 + da.len());
            assert(sb.len() == stem.len() + 1 + db.len());
            assert(da.len() == db.len());
            assert forall|x: int| 0 <= x < da.len() implies da[x] == db[x] by {
                assert(sa[stem.len() + 1 + x] == da[x]);
                assert(sb[stem.len() + 1 + x] == db[x]);
            }
            assert(da =~= db);
        }
    }
}

/// Apply one base-color request to the palette.
///
/// A generative request (its value is a `#rrggbb` literal) generates the
/// nine-stop scale and merges it into the group keyed by the first segment
/// of the request name, appending that group first if it is new; under
/// `FullReplace` the group is emptied first so every stop is inserted
/// afresh. Any other value is a link request, handled by `link_by_name`.
/// On any error the palette is left exactly as it was.
#[verifier::rlimit(100)]
pub fn apply_request(
    palette: &mut Palette,
    req: &BaseColorRequest,
    prefix: &str,
    policy: MergePolicy,
) -> (r: Result<(), UpdateError>)
    requires
        old(palette).wf(),
        req.bounds_ok(),
        forall|gi: int, i: int|
            0 <= gi < old(palette).groups@.len() && 0 <= i < (#[trigger] old(palette).groups@[gi]).entries@.len() ==> (#[trigger] old(palette).groups@[gi].entries@[i]).version < u32::MAX,
    ensures
        final(palette).wf(),
        req.is_generative() ==> (r is Ok <==> crate::codec::valid_hex_color(req.value@)),
        req.is_generative() && r is Err ==> r->Err_0 is Parse && *final(palette) == *old(palette),
        !req.is_generative() ==> ({
            let groups = old(palette).groups@;
            let src = index_of_group(groups, req.value@);
            let suf = gen_suffix(trailing_segment(req.value@), req.anchor_stop as nat);
            let found = src >= 0 && index_of_suffix(groups[src].entries@, suf) >= 0;
            &&& (r is Ok <==> found)
            &&& (r is Err ==> r->Err_0 == UpdateError::ReferenceNotFound && *final(palette)
                == *old(palette))
        }),
        !req.is_generative() && r is Ok ==> ({
            let groups = old(palette).groups@;
            let src = index_of_group(groups, req.value@);
            let suf = gen_suffix(trailing_segment(req.value@), req.anchor_stop as nat);
            let hex = groups[src].entries@[index_of_suffix(groups[src].entries@, suf)].hex@;
            let gkey = first_segment(req.name@);
            let tgt = index_of_group(groups, gkey);
            let lname = link_name(prefix@, req.name@);
            if tgt >= 0 {
                final(palette).groups@.len() == groups.len() && (forall|j: int|
                    0 <= j < groups.len() && j != tgt ==> final(palette).groups@[j] == groups[j])
                    && final(palette).groups@[tgt].name == groups[tgt].name && merge_one(
                    groups[tgt].entries@,
                    final(palette).groups@[tgt].entries@,
                    lname,
                    hex,
                )
            } else {
                final(palette).groups@.len() == groups.len() + 1 && (forall|j: int|
                    0 <= j < groups.len() ==> final(palette).groups@[j] == groups[j]) && final(palette).groups@.last().name@ == gkey && merge_one(
                    Seq::<PaletteEntry>::empty(),
                    final(palette).groups@.last().entries@,
                    lname,
                    hex,
                )
            }
        }),
        forall|gi: int, i: int|
            0 <= gi < final(palette).groups@.len() && 0 <= i
                < (#[trigger] final(palette).groups@[gi]).entries@.len() ==> ({
                let e = #[trigger] final(palette).groups@[gi].entries@[i];
                e.version == 1 || exists|gj: int, j: int|
                    0 <= gj < old(palette).groups@.len() && 0 <= j
                        < old(palette).groups@[gj].entries@.len() && e.version
                        <= (#[trigger] old(palette).groups@[gj].entries@[j]).version + 1
            }),
        r is Err ==> *final(palette) == *old(palette),
        r is Ok ==> final(palette).groups@.len() >= old(palette).groups@.len() && (forall|gi: int|
            0 <= gi < old(palette).groups@.len() ==> (#[trigger] final(palette).groups@[gi]).name@
                == old(palette).groups@[gi].name@) && index_of_group(
            final(palette).groups@,
            first_segment(req.name@),
        ) >= 0,
        r is Ok ==> forall|gi: int|
            0 <= gi < old(palette).groups@.len() && (#[trigger] old(palette).groups@[gi]).name@
                != first_segment(req.name@) ==> final(palette).groups@[gi]
                == old(palette).groups@[gi],
        req.is_generative() && r is Ok ==> exists|gens: Seq<GeneratedColor>|
            #![auto]
            is_scale_of(gens, *req) && generative_effect(
                *old(palette),
                *final(palette),
                *req,
                prefix@,
                policy,
                gens,
            ),
{
    let ghost groups0 = old(palette).groups@;
    if !is_generative_value(&req.value) {
        let r = link_by_name(palette, req, prefix);
        proof {
            assert forall|gi: int, i: int|
                0 <= gi < palette.groups@.len() && 0 <= i
                    < (#[trigger] palette.groups@[gi]).entries@.len() implies ({
                let e = #[trigger] palette.groups@[gi].entries@[i];
                e.version == 1 || exists|gj: int, j: int|
                    0 <= gj < groups0.len() && 0 <= j < groups0[gj].entries@.len() && e.version
                        <= (#[trigger] groups0[gj].entries@[j]).version + 1
            }) by {
                let e = palette.groups@[gi].entries@[i];
                if r is Ok {
                    let src = index_of_group(groups0, req.value@);
                    let suf = gen_suffix(trailing_segment(req.value@), req.anchor_stop as nat);
                    let hex = groups0[src].entries@[index_of_suffix(
                        groups0[src].entries@,
                        suf,
                    )].hex@;
                    let gkey = first_segment(req.name@);
                    let tgt = index_of_group(groups0, gkey);
                    let lname = link_name(prefix@, req.name@);
                    if tgt >= 0 && gi == tgt {
                        let base = groups0[tgt].entries@;
                        let idx = index_of_suffix(base, trailing_segment(lname));
                        if idx >= 0 && i == idx {
                            assert(e.version <= (#[trigger] groups0[tgt].entries@[idx]).version
                                + 1);
                        } else if i < base.len() {
                            assert(e == groups0[tgt].entries@[i]);
                            assert(e.version <= (#[trigger] groups0[tgt].entries@[i]).version
                                + 1);
                        } else {
                            assert(e.version == 1);
                        }
                    } else if tgt < 0 && gi == groups0.len() {
                        assert(e.version == 1);
                    } else {
                        assert(e == groups0[gi].entries@[i]);
                        assert(e.version <= (#[trigger] groups0[gi].entries@[i]).version + 1);
                    }
                } else {
                    assert(e == groups0[gi].entries@[i]);
                    assert(e.version <= (#[trigger] groups0[gi].entries@[i]).version + 1);
                }
            }
            if r is Ok {
                let gkey = first_segment(req.name@);
                let tgt = index_of_group(groups0, gkey);
                lemma_index_of_group(groups0, gkey);
                lemma_index_of_group(palette.groups@, gkey);
                if tgt >= 0 {
                    assert(palette.groups@[tgt].name@ == gkey);
                } else {
                    assert(palette.groups@.last().name@ == gkey);
                    assert(palette.groups@[palette.groups@.len() - 1].name@ == gkey);
                }
                assert forall|g2: int| 0 <= g2 < groups0.len() implies (
                #[trigger] palette.groups@[g2]).name@ == groups0[g2].name@ by {
                    if g2 != tgt {
                        assert(palette.groups@[g2] == groups0[g2]);
                    }
                }
                assert forall|g2: int|
                    0 <= g2 < groups0.len() && (#[trigger] groups0[g2]).name@ != gkey implies
                    palette.groups@[g2] == groups0[g2] by {
                    if tgt >= 0 {
                        assert(groups0[tgt].name@ == gkey);
                        assert(g2 != tgt);
                    }
                }
            }
        }
        return r;
    }
    let gens = match generate(req) {
        Ok(gens) => gens,
        Err(e) => {
            return Err(UpdateError::Parse(e));
        },
    };
    proof {
        lemma_scale_distinct_suffixes(gens@, *req);
        lemma_index_of_group(groups0, first_segment(req.name@));
    }
    let gkey = first_segment_of(req.name.as_str());
    let gi = ensure_group(palette, gkey.as_str());
    if matches!(policy, MergePolicy::FullReplace) {
        clear_group(palette, gi);
    }
    let ghost groups_mid = palette.groups@;
    let g = group_at_mut(&mut palette.groups, gi);
    reconcile_scale(g, prefix, &gens);
    proof {
        let g1 = palette.groups@;
        assert forall|a: int, b: int| 0 <= a < b < g1.len() implies (#[trigger] g1[a]).name@ != (
        #[trigger] g1[b]).name@ by {}
        assert(is_scale_of(gens@, *req));
        let gkeys = first_segment(req.name@);
        let idx = index_of_group(groups0, gkeys);
        assert(groups_mid[gi as int].name@ == gkeys);
        if policy is FullReplace {
            assert(groups_mid[gi as int].entries@ =~= Seq::<PaletteEntry>::empty());
        }
        assert(merged_scale(
            prefix@,
            gkeys,
            groups_mid[gi as int].entries@,
            gens@,
            palette.groups@[gi as int].entries@,
        ));
        if idx >= 0 {
            assert(gi == idx);
            if policy is PreserveIdentities {
                assert(groups_mid[gi as int].entries@ == groups0[idx].entries@);
            }
            assert(merged_scale(
                prefix@,
                gkeys,
                if policy is FullReplace {
                    Seq::<PaletteEntry>::empty()
                } else {
                    groups0[idx].entries@
                },
                gens@,
                palette.groups@[idx].entries@,
            ));
        } else {
            assert(gi == groups0.len());
            assert(groups_mid[gi as int].entries@ =~= Seq::<PaletteEntry>::empty());
            assert(palette.groups@.last() == palette.groups@[gi as int]);
            assert(palette.groups@.last().name@ == gkeys);
            assert(merged_scale(
                prefix@,
                gkeys,
                Seq::<PaletteEntry>::empty(),
                gens@,
                palette.groups@.last().entries@,
            ));
        }
        // Version growth: an updated entry advances its own old version by
        // one, a fresh entry starts at 1, everything else is unchanged.
        let base = groups_mid[gi as int].entries@;
        assert forall|g2: int, i: int|
            0 <= g2 < palette.groups@.len() && 0 <= i
                < (#[trigger] palette.groups@[g2]).entries@.len() implies ({
            let e = #[trigger] palette.groups@[g2].entries@[i];
            e.version == 1 || exists|gj: int, j: int|
                0 <= gj < groups0.len() && 0 <= j < groups0[gj].entries@.len() && e.version
                    <= (#[trigger] groups0[gj].entries@[j]).version + 1
        }) by {
            let e = palette.groups@[g2].entries@[i];
            if g2 == gi {
                if i < base.len() {
                    assert(policy is PreserveIdentities && idx >= 0);
                    assert(base == groups0[idx].entries@);
                    let k = first_gen_matching(gens@, trailing_segment(base[i].name@));
                    if k >= 0 {
                        assert(e.version == base[i].version + 1);
                    } else {
                        assert(e == base[i]);
                    }
                    assert(e.version <= (#[trigger] groups0[idx].entries@[i]).version + 1);
                } else {
                    let um = gen_unmatched(gens@, base);
                    let j = i - base.len();
                    assert(crate::palette::merged_fresh(
                        palette.groups@[g2].entries@[base.len() + j],
                        step_qualified(prefix@, gkeys, um[j]),
                        um[j].hex@,
                    ));
                    assert(e.version == 1);
                }
            } else {
                assert(g2 < groups0.len());
                assert(e == groups0[g2].entries@[i]);
                assert(e.version <= (#[trigger] groups0[g2].entries@[i]).version + 1);
            }
        }
        lemma_index_of_group(palette.groups@, gkeys);
        assert(palette.groups@[gi as int].name@ == gkeys);
        assert forall|g2: int| 0 <= g2 < groups0.len() implies (
        #[trigger] palette.groups@[g2]).name@ == groups0[g2].name@ by {
            if g2 != gi {
                assert(palette.groups@[g2] == groups_mid[g2]);
            }
        }
        assert forall|g2: int|
            0 <= g2 < groups0.len() && (#[trigger] groups0[g2]).name@ != gkeys implies
            palette.groups@[g2] == groups0[g2] by {
            assert(g2 != gi);
            assert(palette.groups@[g2] == groups_mid[g2]);
            assert(groups_mid[g2] == groups0[g2]);
        }
        assert(generative_effect(*old(palette), *palette, *req, prefix@, policy, gens@));
    }
    Ok(())
}

/// Whether a request value is a seed color literal (`#` first) rather than
/// a link to another group.
fn is_generative_value(value: &String) -> (r: bool)
    ensures
        r == (value@.len() > 0 && value@[0] == '#'),
{
    if value.as_str().unicode_len() == 0 {
        return false;
    }
    let c = value.as_str().get_char(0);
    c == '#'
}



/// One output variable of a generative request: the qualified name of its
/// group at stop `100 * (i + 1)` with the deterministic generated hex.
pub open spec fn is_gen_var(
    v: ColorVariable,
    prefix: Seq<char>,
    req: BaseColorRequest,
    i: int,
) -> bool {
    v.name@ == crate::palette::qualified_name(
        prefix,
        first_segment(req.name@),
        trailing_segment(req.name@),
        stop_value(i) as nat,
    ) && v.value@ == gen_hex(
        req.value@,
        req.lightness_min as int,
        req.lightness_max as int,
        req.anchor_stop as int,
        stop_value(i),
    )
}

/// The written-back list holds the generated color of stop `100 * (i + 1)`
/// of this request.
pub open spec fn gen_var_present(
    out: Seq<ColorVariable>,
    prefix: Seq<char>,
    req: BaseColorRequest,
    i: int,
) -> bool {
    exists|j: int| 0 <= j < out.len() && is_gen_var(#[trigger] out[j], prefix, req, i)
}

/// No other request addresses the same group key.
pub open spec fn key_unique(requests: Seq<BaseColorRequest>, k: int) -> bool {
    forall|k2: int|
        0 <= k2 < requests.len() && k2 != k ==> first_segment((#[trigger] requests[k2]).name@)
            != first_segment(requests[k].name@)
}

/// The palette's group of the request holds the generated color of stop
/// `100 * (i + 1)`.
pub open spec fn scale_present(pal: Palette, prefix: Seq<char>, req: BaseColorRequest, i: int)
    -> bool {
    let gidx = index_of_group(pal.groups@, first_segment(req.name@));
    gidx >= 0 && exists|e: int|
        0 <= e < pal.groups@[gidx].entries@.len() && (#[trigger] pal.groups@[gidx].entries@[e]).name@
            == crate::palette::qualified_name(
            prefix,
            first_segment(req.name@),
            trailing_segment(req.name@),
            stop_value(i) as nat,
        ) && pal.groups@[gidx].entries@[e].hex@ == gen_hex(
            req.value@,
            req.lightness_min as int,
            req.lightness_max as int,
            req.anchor_stop as int,
            stop_value(i),
        )
}

/// Whether some request's group claims this variable name on save.
pub open spec fn removed_by_requests(
    name: Seq<char>,
    prefix: Seq<char>,
    requests: Seq<BaseColorRequest>,
) -> bool {
    exists|k: int|
        0 <= k < requests.len() && link_name(
            prefix,
            first_segment((#[trigger] requests[k]).name@),
        ).is_prefix_of(name)
}

/// The variables no request's group claims, in their original order: these
/// are passed through verbatim.
pub open spec fn surviving_vars(
    vars: Seq<ColorVariable>,
    prefix: Seq<char>,
    requests: Seq<BaseColorRequest>,
) -> Seq<ColorVariable> {
    vars.filter(|v: ColorVariable| !removed_by_requests(v.name@, prefix, requests))
}

/// Filters by pointwise-equal predicates keep the same elements.
proof fn lemma_filter_equiv<A>(s: Seq<A>, p1: spec_fn(A) -> bool, p2: spec_fn(A) -> bool)
    requires
        forall|i: int| 0 <= i < s.len() ==> p1(#[trigger] s[i]) == p2(s[i]),
    ensures
        s.filter(p1) == s.filter(p2),
    decreases s.len(),
{
    reveal(Seq::filter);
    if s.len() > 0 {
        lemma_filter_equiv(s.drop_last(), p1, p2);
        assert(p1(s.last()) == p2(s.last()));
    }
}

/// Update the document's color variables with a batch of base-color
/// requests: load the palette of `group_prefix`, apply every request in
/// order, and write the palette back.
///
/// The returned list starts with every variable no request's group claims,
/// byte for byte in the old order, followed by the rewritten groups at the
/// tail. On any error nothing is returned, so the caller's document stays
/// untouched. `MalformedDocument` comes exactly when two belonging
/// variables of one group share a stop suffix; a batch of generative
/// requests with parseable seeds on a well-shaped document always
/// succeeds.
#[verifier::rlimit(100)]
pub fn update_palette(
    vars: &Vec<ColorVariable>,
    requests: &Vec<BaseColorRequest>,
    group_prefix: &str,
    policy: MergePolicy,
) -> (r: Result<Vec<ColorVariable>, UpdateError>)
    requires
        forall|k: int| 0 <= k < requests@.len() ==> (#[trigger] requests@[k]).bounds_ok(),
        requests@.len() + 1 < u32::MAX,
        forall|i: int|
            0 <= i < vars@.len() ==> (#[trigger] vars@[i]).version as int + requests@.len() + 1
                < u32::MAX,
    ensures
        r == Err::<Vec<ColorVariable>, UpdateError>(UpdateError::MalformedDocument)
            <==> has_duplicate(vars@, group_prefix@),
        r is Ok ==> forall|k: int|
            0 <= k < requests@.len() && (#[trigger] requests@[k]).is_generative()
                ==> crate::codec::valid_hex_color(requests@[k].value@),
        (exists|k: int|
            0 <= k < requests@.len() && (#[trigger] requests@[k]).is_generative()
                && !crate::codec::valid_hex_color(requests@[k].value@)) ==> r is Err,
        (!has_duplicate(vars@, group_prefix@) && (forall|k: int|
            0 <= k < requests@.len() ==> (#[trigger] requests@[k]).is_generative()
                && crate::codec::valid_hex_color(requests@[k].value@))) ==> r is Ok,
        r is Ok ==> ({
            let kept = surviving_vars(vars@, group_prefix@, requests@);
            r->Ok_0@.len() >= kept.len() && r->Ok_0@.subrange(0, kept.len() as int) == kept
        }),
        r is Ok ==> forall|k: int, i: int|
            0 <= k < requests@.len() && 0 <= i < 9 && requests@[k].is_generative() && key_unique(
                requests@,
                k,
            ) ==> #[trigger] gen_var_present(r->Ok_0@, group_prefix@, requests@[k], i),
{
    let ghost pfx = group_prefix@;
    let mut pal = match load(vars, group_prefix) {
        Ok(pal) => pal,
        Err(e) => {
            return Err(e);
        },
    };
    proof {
        // Loaded versions leave headroom for one bump per request.
        assert forall|gi: int, i: int|
            0 <= gi < pal.groups@.len() && 0 <= i < (#[trigger] pal.groups@[gi]).entries@.len()
            implies (#[trigger] pal.groups@[gi].entries@[i]).version as int + requests@.len()
            < u32::MAX by {
            let gv = group_vars(vars@, pfx, pal.groups@[gi].name@);
            assert(is_entry_of(pal.groups@[gi].entries@[i], gv[i]));
            assert(pal.groups@[gi].entries@[i].version as int <= gv[i].version as int + 1);
            crate::adapter::lemma_filter_member(
                vars@,
                |w: ColorVariable| belongs(w, pfx) && var_key(w, pfx) == pal.groups@[gi].name@,
                i,
            );
            let i0 = choose|i0: int| 0 <= i0 < vars@.len() && gv[i] == #[trigger] vars@[i0];
            assert(vars@[i0].version as int + requests@.len() < u32::MAX);
        }
    }
    let ghost reqs = requests@;
    let n = requests.len();
    let mut touched: Vec<String> = Vec::new();
    let mut k: usize = 0;
    while k < n
        invariant
            0 <= k <= n,
            n == reqs.len(),
            reqs == requests@,
            pfx == group_prefix@,
            pal.wf(),
            forall|k2: int| 0 <= k2 < n ==> (#[trigger] reqs[k2]).bounds_ok(),
            n as int + 1 < u32::MAX,
            !has_duplicate(vars@, pfx),
            touched@.len() == k,
            forall|k2: int|
                0 <= k2 < k ==> (#[trigger] touched@[k2])@ == first_segment(reqs[k2].name@),
            forall|k2: int|
                0 <= k2 < k ==> index_of_group(
                    pal.groups@,
                    first_segment((#[trigger] reqs[k2]).name@),
                ) >= 0,
            forall|k2: int|
                0 <= k2 < k && (#[trigger] reqs[k2]).is_generative()
                    ==> crate::codec::valid_hex_color(reqs[k2].value@),
            forall|gi: int, i: int|
                0 <= gi < pal.groups@.len() && 0 <= i < (#[trigger] pal.groups@[gi]).entries@.len()
                    ==> (#[trigger] pal.groups@[gi].entries@[i]).version as int + (n - k)
                    < u32::MAX,
            forall|k2: int, i: int|
                0 <= k2 < k && 0 <= i < 9 && reqs[k2].is_generative() && key_unique(reqs, k2)
                    ==> #[trigger] scale_present(pal, pfx, reqs[k2], i),
        decreases n - k,
    {
        let ghost pal0 = pal;
        let req = &requests[k];
        match apply_request(&mut pal, req, group_prefix, policy) {
            Ok(()) => {},
            Err(e) => {
                proof {
                    if req.is_generative() {
                        assert(e is Parse);
                    } else {
                        assert(e == UpdateError::ReferenceNotFound);
                    }
                }
                return Err(e);
            },
        }
        touched.push(first_segment_of(req.name.as_str()));
        proof {
            // Every group seen so far keeps its name, and the applied
            // request's key group exists.
            assert forall|k2: int| 0 <= k2 < k + 1 implies index_of_group(
                pal.groups@,
                first_segment((#[trigger] reqs[k2]).name@),
            ) >= 0 by {
                lemma_index_of_group(pal.groups@, first_segment(reqs[k2].name@));
                if k2 < k {
                    lemma_index_of_group(pal0.groups@, first_segment(reqs[k2].name@));
                    let gidx = index_of_group(pal0.groups@, first_segment(reqs[k2].name@));
                    assert(pal.groups@[gidx].name@ == pal0.groups@[gidx].name@);
                }
            }
            // Version headroom shrinks by at most one per request.
            assert forall|gi: int, i: int|
                0 <= gi < pal.groups@.len() && 0 <= i
                    < (#[trigger] pal.groups@[gi]).entries@.len() implies (
            #[trigger] pal.groups@[gi].entries@[i]).version as int + (n - (k + 1))
                < u32::MAX by {
                let e = pal.groups@[gi].entries@[i];
                assert(e.version == 1 || exists|gj: int, j: int|
                    0 <= gj < pal0.groups@.len() && 0 <= j < pal0.groups@[gj].entries@.len()
                        && e.version <= (#[trigger] pal0.groups@[gj].entries@[j]).version + 1);
                if e.version != 1 {
                    let (gj, j) = choose|gj: int, j: int|
                        0 <= gj < pal0.groups@.len() && 0 <= j < pal0.groups@[gj].entries@.len()
                            && e.version <= (#[trigger] pal0.groups@[gj].entries@[j]).version
                            + 1;
                    assert(pal0.groups@[gj].entries@[j].version as int + (n - k) < u32::MAX);
                }
            }
            // Each uniquely keyed generative request leaves (and keeps)
            // its whole generated scale in its group.
            assert forall|k2: int, i: int|
                0 <= k2 < k + 1 && 0 <= i < 9 && reqs[k2].is_generative() && key_unique(
                    reqs,
                    k2,
                ) implies #[trigger] scale_present(pal, pfx, reqs[k2], i) by {
                lemma_scale_present_step(pal0, pal, reqs, k as int, pfx, policy, k2, i);
            }
        }
        k += 1;
    }
    let out = save(vars, &pal, &touched, group_prefix);
    proof {
        assert forall|i: int| 0 <= i < vars@.len() implies removed_name(
            (#[trigger] vars@[i]).name@,
            pfx,
            touched@,
        ) == removed_by_requests(vars@[i].name@, pfx, reqs) by {
            if removed_name(vars@[i].name@, pfx, touched@) {
                let k2 = choose|k2: int|
                    0 <= k2 < touched@.len() && link_name(
                        pfx,
                        (#[trigger] touched@[k2])@,
                    ).is_prefix_of(vars@[i].name@);
                assert(link_name(pfx, first_segment((#[trigger] reqs[k2]).name@)).is_prefix_of(
                    vars@[i].name@,
                ));
            }
            if removed_by_requests(vars@[i].name@, pfx, reqs) {
                let k2 = choose|k2: int|
                    0 <= k2 < reqs.len() && link_name(
                        pfx,
                        first_segment((#[trigger] reqs[k2]).name@),
                    ).is_prefix_of(vars@[i].name@);
                assert(link_name(pfx, (#[trigger] touched@[k2])@).is_prefix_of(vars@[i].name@));
            }
        }
        lemma_filter_equiv(
            vars@,
            |v: ColorVariable| !removed_name(v.name@, pfx, touched@),
            |v: ColorVariable| !removed_by_requests(v.name@, pfx, reqs),
        );
        assert(kept_vars(vars@, pfx, touched@) == surviving_vars(vars@, pfx, reqs));
        lemma_appended_len_nonneg(pal.groups@, touched@, touched@.len() as int);
        // Each uniquely keyed generative request's nine colors stand in
        // the written-back list.
        let kept = kept_vars(vars@, pfx, touched@);
        assert forall|k2: int, i: int|
            0 <= k2 < reqs.len() && 0 <= i < 9 && reqs[k2].is_generative() && key_unique(
                reqs,
                k2,
            ) implies #[trigger] gen_var_present(out@, pfx, reqs[k2], i) by {
            assert(scale_present(pal, pfx, reqs[k2], i));
            let gkey2 = first_segment(reqs[k2].name@);
            let gidx = index_of_group(pal.groups@, gkey2);
            assert(touched@[k2]@ == gkey2);
            let e = choose|e: int|
                0 <= e < pal.groups@[gidx].entries@.len() && (
                #[trigger] pal.groups@[gidx].entries@[e]).name@
                    == crate::palette::qualified_name(
                    pfx,
                    gkey2,
                    trailing_segment(reqs[k2].name@),
                    stop_value(i) as nat,
                ) && pal.groups@[gidx].entries@[e].hex@ == gen_hex(
                    reqs[k2].value@,
                    reqs[k2].lightness_min as int,
                    reqs[k2].lightness_max as int,
                    reqs[k2].anchor_stop as int,
                    stop_value(i),
                );
            lemma_appended_len_nonneg(pal.groups@, touched@, k2);
            crate::adapter::lemma_appended_len_mono(
                pal.groups@,
                touched@,
                k2 + 1,
                touched@.len() as int,
            );
            assert(appended_len(pal.groups@, touched@, k2 + 1) == appended_len(
                pal.groups@,
                touched@,
                k2,
            ) + pal.groups@[index_of_group(pal.groups@, touched@[k2]@)].entries@.len());
            let j = kept.len() + appended_len(pal.groups@, touched@, k2) + e;
            assert(is_var_of(out@[j], pal.groups@[gidx].entries@[e]));
            assert(0 <= j < out@.len());
            assert(is_gen_var(out@[j], pfx, reqs[k2], i));
        }
    }
    Ok(out)
}


/// One reconciliation step keeps every previously generated scale in place
/// and establishes the newly generated one.
#[verifier::rlimit(100)]
proof fn lemma_scale_present_step(
    pal0: Palette,
    pal: Palette,
    reqs: Seq<BaseColorRequest>,
    k: int,
    pfx: Seq<char>,
    policy: MergePolicy,
    k2: int,
    i: int,
)
    requires
        0 <= k < reqs.len(),
        0 <= k2 <= k,
        0 <= i < 9,
        reqs[k2].is_generative(),
        key_unique(reqs, k2),
        pal0.wf(),
        pal.wf(),
        k2 < k ==> scale_present(pal0, pfx, reqs[k2], i),
        pal.groups@.len() >= pal0.groups@.len(),
        forall|gi: int|
            0 <= gi < pal0.groups@.len() ==> (#[trigger] pal.groups@[gi]).name@
                == pal0.groups@[gi].name@,
        forall|gi: int|
            0 <= gi < pal0.groups@.len() && (#[trigger] pal0.groups@[gi]).name@ != first_segment(
                reqs[k].name@,
            ) ==> pal.groups@[gi] == pal0.groups@[gi],
        k2 == k ==> exists|gens: Seq<GeneratedColor>|
            #![auto]
            is_scale_of(gens, reqs[k]) && generative_effect(pal0, pal, reqs[k], pfx, policy, gens),
    ensures
        scale_present(pal, pfx, reqs[k2], i),
{
    let gkey2 = first_segment(reqs[k2].name@);
    lemma_index_of_group(pal.groups@, gkey2);
    if k2 == k {
        let gens = choose|gens: Seq<GeneratedColor>|
            #![auto]
            is_scale_of(gens, reqs[k2]) && generative_effect(
                pal0,
                pal,
                reqs[k2],
                pfx,
                policy,
                gens,
            );
        let idx0 = index_of_group(pal0.groups@, gkey2);
        lemma_index_of_group(pal0.groups@, gkey2);
        let gidx: int = if idx0 >= 0 {
            idx0
        } else {
            pal0.groups@.len() as int
        };
        assert(pal.groups@[gidx].name@ == gkey2);
        assert(index_of_group(pal.groups@, gkey2) == gidx) by {
            let f = index_of_group(pal.groups@, gkey2);
            assert(0 <= f <= gidx);
            if f < gidx {
                assert(pal.groups@[f].name@ == gkey2);
                assert(pal.groups@[f].name@ == pal0.groups@[f].name@);
                assert(idx0 >= 0 && idx0 <= f);
            }
        }
        lemma_scale_distinct_suffixes(gens, reqs[k2]);
        if idx0 < 0 {
            assert(pal.groups@.last() == pal.groups@[gidx]);
        }
        assert(merged_scale(
            pfx,
            gkey2,
            if idx0 >= 0 && policy is PreserveIdentities {
                pal0.groups@[idx0].entries@
            } else {
                Seq::<PaletteEntry>::empty()
            },
            gens,
            pal.groups@[gidx].entries@,
        ));
        crate::palette::lemma_merged_scale_covers(
            pfx,
            gkey2,
            if idx0 >= 0 && policy is PreserveIdentities {
                pal0.groups@[idx0].entries@
            } else {
                Seq::<PaletteEntry>::empty()
            },
            gens,
            pal.groups@[gidx].entries@,
            i,
        );
        let e = choose|e: int|
            0 <= e < pal.groups@[gidx].entries@.len() && (
            #[trigger] pal.groups@[gidx].entries@[e]).name@ == step_qualified(
                pfx,
                gkey2,
                gens[i],
            ) && pal.groups@[gidx].entries@[e].hex@ == gens[i].hex@;
        assert(step_qualified(pfx, gkey2, gens[i]) == crate::palette::qualified_name(
            pfx,
            gkey2,
            trailing_segment(reqs[k2].name@),
            stop_value(i) as nat,
        ));
    } else {
        // Untouched by this request: the group and its entries survive
        // unchanged at the same index.
        let gidx = index_of_group(pal0.groups@, gkey2);
        lemma_index_of_group(pal0.groups@, gkey2);
        assert(gkey2 != first_segment(reqs[k].name@));
        assert(pal0.groups@[gidx].name@ == gkey2);
        assert(pal.groups@[gidx] == pal0.groups@[gidx]);
        assert(index_of_group(pal.groups@, gkey2) == gidx) by {
            let f = index_of_group(pal.groups@, gkey2);
            assert(0 <= f <= gidx);
            if f < gidx {
                assert(pal.groups@[f].name@ == gkey2);
                assert(pal.groups@[f].name@ == pal0.groups@[f].name@);
                assert(index_of_group(pal0.groups@, gkey2) <= f);
            }
        }
        let e = choose|e: int|
            0 <= e < pal0.groups@[gidx].entries@.len() && (
            #[trigger] pal0.groups@[gidx].entries@[e]).name@ == crate::palette::qualified_name(
                pfx,
                gkey2,
                trailing_segment(reqs[k2].name@),
                stop_value(i) as nat,
            ) && pal0.groups@[gidx].entries@[e].hex@ == gen_hex(
                reqs[k2].value@,
                reqs[k2].lightness_min as int,
                reqs[k2].lightness_max as int,
                reqs[k2].anchor_stop as int,
                stop_value(i),
            );
        assert(0 <= e < pal.groups@[gidx].entries@.len());
    }
}

} // verus!
