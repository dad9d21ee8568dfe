//! Document adapter: translation between the document's flat ordered list
//! of named color variables and the palette model, scoped by a group
//! prefix. A variable belongs to the palette exactly when its name starts
//! with `"<prefix> / "`; everything else is never read, reordered or
//! rewritten. Saving removes the touched groups' variables by name prefix
//! and appends their current entries at the tail, so untouched entries keep
//! their relative order.

use vstd::prelude::*;

use crate::errors::UpdateError;
use crate::palette::{
    ensure_group, find_entry_by_suffix, find_group, group_at_mut, index_of_group, index_of_suffix,
    lemma_index_of_group, lemma_index_of_suffix, link_name, make_link_name, sep_chars, Palette,
    PaletteEntry, PaletteGroup,
};
use crate::strutil::{
    first_segment, first_segment_of, starts_with, trailing_segment, trailing_segment_of,
};

verus! {

/// One record of the document's `colorVariables` list, with the identity
/// token already decoded to the core's opaque text form.
#[derive(Debug)]
pub struct ColorVariable {
    pub id: String,
    pub version: u32,
    pub name: String,
    pub value: String,
}

/// The scope marker of a palette: `"<prefix> / "`.
pub open spec fn scope_of(prefix: Seq<char>) -> Seq<char> {
    prefix + sep_chars()
}

/// Whether a variable belongs to the palette of `prefix`.
pub open spec fn belongs(v: ColorVariable, prefix: Seq<char>) -> bool {
    scope_of(prefix).is_prefix_of(v.name@)
}

/// The group key of a belonging variable: the first `/`-delimited segment
/// after the scope marker, trimmed.
pub open spec fn var_key(v: ColorVariable, prefix: Seq<char>) -> Seq<char> {
    first_segment(v.name@.skip(scope_of(prefix).len() as int))
}

/// Versions are counters from 1 up; a stored 0 is read as 1.
pub open spec fn read_version(v: u32) -> u32 {
    if v == 0 {
        1u32
    } else {
        v
    }
}

/// The palette entry read from one variable.
pub open spec fn is_entry_of(e: PaletteEntry, v: ColorVariable) -> bool {
    e.id@ == v.id@ && e.version == read_version(v.version) && e.name@ == v.name@ && e.hex@
        == v.value@
}

/// The variable written for one palette entry.
pub open spec fn is_var_of(v: ColorVariable, e: PaletteEntry) -> bool {
    v.id@ == e.id@ && v.version == e.version && v.name@ == e.name@ && v.value@ == e.hex@
}

/// The belonging variables of one group, in document order.
pub open spec fn group_vars(vars: Seq<ColorVariable>, prefix: Seq<char>, key: Seq<char>)
    -> Seq<ColorVariable> {
    vars.filter(|v: ColorVariable| belongs(v, prefix) && var_key(v, prefix) == key)
}

/// Two belonging variables of one group that share a stop suffix: the
/// palette's shape forbids it.
pub open spec fn has_duplicate(vars: Seq<ColorVariable>, prefix: Seq<char>) -> bool {
    exists|i: int, j: int|
        0 <= i < j < vars.len() && belongs(#[trigger] vars[i], prefix) && belongs(
            #[trigger] vars[j],
            prefix,
        ) && var_key(vars[i], prefix) == var_key(vars[j], prefix) && trailing_segment(
            vars[i].name@,
        ) == trailing_segment(vars[j].name@)
}

/// Every element a filter keeps is an element of the filtered sequence.
pub proof fn lemma_filter_member<A>(s: Seq<A>, pred: spec_fn(A) -> bool, j: int)
    requires
        0 <= j < s.filter(pred).len(),
    ensures
        exists|i: int| 0 <= i < s.len() && s.filter(pred)[j] == #[trigger] s[i],
    decreases s.len(),
{
    reveal(Seq::filter);
    assert(s.len() > 0);
    let prev = s.drop_last();
    if pred(s.last()) {
        if j < s.filter(pred).len() - 1 {
            lemma_filter_member(prev, pred, j);
            let i = choose|i: int| 0 <= i < prev.len() && prev.filter(pred)[j] == #[trigger] prev[i];
            assert(s[i] == prev[i]);
        } else {
            assert(s.filter(pred)[j] == s[s.len() - 1]);
        }
    } else {
        lemma_filter_member(prev, pred, j);
        let i = choose|i: int| 0 <= i < prev.len() && prev.filter(pred)[j] == #[trigger] prev[i];
        assert(s[i] == prev[i]);
    }
}

/// Build the scope marker `"<prefix> / "`.
pub fn make_scope(prefix: &str) -> (r: String)
    ensures
        r@ == scope_of(prefix@),
{
    let mut out = prefix.to_owned();
    out.append(" / ");
    proof {
        reveal_strlit(" / ");
        assert(" / "@ =~= sep_chars());
        assert(out@ =~= scope_of(prefix@));
    }
    out
}

/// Scan the document's color variables into the palette of `group_prefix`.
///
/// A variable belongs exactly when its name starts with `"<prefix> / "`;
/// its group is named by the first segment after the marker. Entries keep
/// document order within their group, and every belonging variable lands in
/// the group of its key. Fails with `MalformedDocument` exactly when two
/// belonging variables of one group share a trailing stop suffix, which the
/// palette's shape (entries keyed by suffix) rules out.
pub fn load(vars: &Vec<ColorVariable>, group_prefix: &str) -> (r: Result<Palette, UpdateError>)
    ensures
        r is Ok <==> !has_duplicate(vars@, group_prefix@),
        r is Err ==> r->Err_0 == UpdateError::MalformedDocument,
        r is Ok ==> ({
            let pal = r->Ok_0;
            &&& pal.wf()
            &&& forall|gi: int|
                0 <= gi < pal.groups@.len() ==> ({
                    let g = #[trigger] pal.groups@[gi];
                    let gv = group_vars(vars@, group_prefix@, g.name@);
                    g.entries@.len() == gv.len() && (forall|j: int|
                        0 <= j < gv.len() ==> is_entry_of(#[trigger] g.entries@[j], gv[j]))
                        && gv.len() > 0
                })
            &&& forall|i: int|
                0 <= i < vars@.len() && belongs(#[trigger] vars@[i], group_prefix@)
                    ==> index_of_group(pal.groups@, var_key(vars@[i], group_prefix@)) >= 0
        }),
{
    let ghost pfx = group_prefix@;
    let scope = make_scope(group_prefix);
    let scope_len = scope.as_str().unicode_len();
    let mut pal = Palette { groups: Vec::new() };
    let n = vars.len();
    let mut t: usize = 0;
    proof {
        assert(vars@.take(0) =~= Seq::<ColorVariable>::empty());
        reveal(Seq::filter);
    }
    while t < n
        invariant
            0 <= t <= n,
            n == vars@.len(),
            pfx == group_prefix@,
            scope@ == scope_of(pfx),
            scope_len == scope@.len(),
            pal.wf(),
            !has_duplicate(vars@.take(t as int), pfx),
            forall|gi: int|
                0 <= gi < pal.groups@.len() ==> ({
                    let g = #[trigger] pal.groups@[gi];
                    let gv = group_vars(vars@.take(t as int), pfx, g.name@);
                    g.entries@.len() == gv.len() && (forall|j: int|
                        0 <= j < gv.len() ==> is_entry_of(#[trigger] g.entries@[j], gv[j]))
                        && gv.len() > 0
                }),
            forall|i: int|
                0 <= i < t && belongs(#[trigger] vars@[i], pfx) ==> index_of_group(
                    pal.groups@,
                    var_key(vars@[i], pfx),
                ) >= 0,
        decreases n - t,
    {
        let ghost taken = vars@.take(t as int);
        let ghost groups0 = pal.groups@;
        let v = &vars[t];
        proof {
            assert(vars@.take(t as int + 1) =~= taken.push(vars@[t as int]));
            assert(vars@.take(t as int + 1).drop_last() =~= taken);
        }
        if starts_with(v.name.as_str(), scope.as_str()) {
            let name_len = v.name.as_str().unicode_len();
            let rest = v.name.as_str().substring_char(scope_len, name_len);
            proof {
                assert(rest@ =~= v.name@.skip(scope_of(pfx).len() as int));
            }
            let key = first_segment_of(rest);
            assert(key@ == var_key(vars@[t as int], pfx));
            let gi = ensure_group(&mut pal, key.as_str());
            let ghost groups1 = pal.groups@;
            proof {
                lemma_index_of_group(groups0, key@);
            }
            let suffix = trailing_segment_of(v.name.as_str());
            let ghost gv0 = group_vars(taken, pfx, key@);
            proof {
                // The target group's entries mirror the taken variables of
                // this key, whether the group existed or was just created.
                if index_of_group(groups0, key@) >= 0 {
                    assert(groups1[gi as int] == groups0[gi as int]);
                } else {
                    assert(groups1[gi as int].entries@.len() == 0);
                    assert(gv0.len() == 0) by {
                        if gv0.len() > 0 {
                            lemma_filter_member(
                                taken,
                                |w: ColorVariable| belongs(w, pfx) && var_key(w, pfx) == key@,
                                0,
                            );
                            let i0 = choose|i: int|
                                0 <= i < taken.len() && group_vars(taken, pfx, key@)[0]
                                    == #[trigger] taken[i];
                            assert(belongs(vars@[i0], pfx));
                            assert(index_of_group(groups0, var_key(vars@[i0], pfx)) >= 0);
                        }
                    }
                }
                assert(groups1[gi as int].entries@.len() == gv0.len());
                assert(forall|j: int|
                    0 <= j < gv0.len() ==> is_entry_of(
                        #[trigger] groups1[gi as int].entries@[j],
                        gv0[j],
                    ));
            }
            match find_entry_by_suffix(&pal.groups[gi].entries, suffix.as_str()) {
                Some(_) => {
                    proof {
                        lemma_index_of_suffix(groups1[gi as int].entries@, suffix@);
                        let ei = index_of_suffix(groups1[gi as int].entries@, suffix@);
                        lemma_filter_member(
                            taken,
                            |w: ColorVariable| belongs(w, pfx) && var_key(w, pfx) == key@,
                            ei,
                        );
                        let i0 = choose|i: int|
                            0 <= i < taken.len() && group_vars(taken, pfx, key@)[ei]
                                == #[trigger] taken[i];
                        assert(taken[i0] == vars@[i0]);
                        assert(belongs(vars@[i0], pfx) && var_key(vars@[i0], pfx) == key@);
                        assert(trailing_segment(vars@[i0].name@) == trailing_segment(
                            vars@[t as int].name@,
                        ));
                        assert(has_duplicate(vars@, pfx)) by {
                            assert(0 <= i0 < t < vars@.len());
                        }
                    }
                    return Err(UpdateError::MalformedDocument);
                },
                None => {
                },
            }
            proof {
                lemma_index_of_suffix(groups1[gi as int].entries@, suffix@);
            }
            let version = if v.version == 0 {
                1
            } else {
                v.version
            };
            let entry = PaletteEntry {
                id: v.id.clone(),
                version,
                name: v.name.clone(),
                hex: v.value.clone(),
            };
            let g = group_at_mut(&mut pal.groups, gi);
            g.entries.push(entry);
            proof {
                let groups2 = pal.groups@;
                let taken1 = vars@.take(t as int + 1);
                // No new duplicate: nothing of this key in `taken` carries
                // this suffix, else the entry lookup would have found it.
                assert forall|i: int|
                    0 <= i < t && belongs(#[trigger] vars@[i], pfx) && var_key(vars@[i], pfx)
                        == key@ implies trailing_segment(vars@[i].name@) != suffix@ by {
                    taken.lemma_filter_contains(
                        |w: ColorVariable| belongs(w, pfx) && var_key(w, pfx) == key@,
                        i,
                    );
                    let j0 = choose|j0: int| 0 <= j0 < gv0.len() && gv0[j0] == taken[i];
                    assert(is_entry_of(groups1[gi as int].entries@[j0], gv0[j0]));
                    if trailing_segment(vars@[i].name@) == suffix@ {
                        assert(trailing_segment(groups1[gi as int].entries@[j0].name@)
                            == suffix@);
                        assert(index_of_suffix(groups1[gi as int].entries@, suffix@) >= 0);
                    }
                }
                assert(!has_duplicate(taken1, pfx)) by {
                    assert forall|a: int, b: int|
                        0 <= a < b < taken1.len() && belongs(#[trigger] taken1[a], pfx)
                            && belongs(#[trigger] taken1[b], pfx) && var_key(taken1[a], pfx)
                            == var_key(taken1[b], pfx) implies trailing_segment(taken1[a].name@)
                        != trailing_segment(taken1[b].name@) by {
                        assert(taken1[a] == vars@[a]);
                        assert(taken1[b] == vars@[b]);
                        if b < t {
                            assert(!has_duplicate(taken, pfx));
                            assert(taken[a] == vars@[a] && taken[b] == vars@[b]);
                        }
                    }
                }
                // The group's entry suffixes stay distinct, so the palette
                // stays well-formed.
                let es = groups2[gi as int].entries@;
                let es0 = groups1[gi as int].entries@;
                assert forall|a: int, b: int| 0 <= a < b < es.len() implies trailing_segment(
                    (#[trigger] es[a]).name@,
                ) != trailing_segment((#[trigger] es[b]).name@) by {
                    if b == es.len() - 1 {
                        assert(es[a] == es0[a]);
                        assert(trailing_segment(es[b].name@) == suffix@);
                        assert(index_of_suffix(es0, suffix@) == -1);
                    } else {
                        assert(es[a] == es0[a] && es[b] == es0[b]);
                    }
                }
                assert(pal.wf()) by {
                    assert(forall|gj: int|
                        0 <= gj < groups2.len() && gj != gi ==> groups2[gj] == groups1[gj]);
                    assert(groups2[gi as int].name == groups1[gi as int].name);
                }
                // Each group's contents track the filtered variables.
                assert forall|gj: int| 0 <= gj < groups2.len() implies ({
                    let g2 = #[trigger] groups2[gj];
                    let gv = group_vars(taken1, pfx, g2.name@);
                    g2.entries@.len() == gv.len() && (forall|j: int|
                        0 <= j < gv.len() ==> is_entry_of(#[trigger] g2.entries@[j], gv[j]))
                        && gv.len() > 0
                }) by {
                    reveal(Seq::filter);
                    let g2 = groups2[gj];
                    let gvp = group_vars(taken, pfx, g2.name@);
                    let gv = group_vars(taken1, pfx, g2.name@);
                    assert(taken1.drop_last() =~= taken);
                    assert(taken1.last() == vars@[t as int]);
                    if gj == gi {
                        assert(g2.name@ == key@);
                        assert(belongs(vars@[t as int], pfx) && var_key(vars@[t as int], pfx)
                            == key@);
                        assert(gv =~= gv0.push(vars@[t as int]));
                        assert(g2.entries@.last() == entry);
                        assert forall|j: int| 0 <= j < gv.len() implies is_entry_of(
                            #[trigger] g2.entries@[j],
                            gv[j],
                        ) by {
                            if j < gv.len() - 1 {
                                assert(g2.entries@[j] == es0[j]);
                                assert(is_entry_of(es0[j], gv0[j]));
                            } else {
                                assert(g2.entries@[j] == entry);
                                assert(is_entry_of(entry, vars@[t as int]));
                            }
                        }
                    } else {
                        assert(g2 == groups1[gj]);
                        assert(g2.name@ != key@);
                        assert(!(belongs(vars@[t as int], pfx) && var_key(vars@[t as int], pfx)
                            == g2.name@));
                        assert(gv =~= gvp);
                        if index_of_group(groups0, key@) >= 0 {
                            assert(g2 == groups0[gj]);
                        } else {
                            assert(gj < groups0.len());
                            assert(g2 == groups0[gj]);
                        }
                    }
                }
                // Every seen key still has its group.
                assert forall|i: int|
                    0 <= i < t + 1 && belongs(#[trigger] vars@[i], pfx) implies index_of_group(
                    pal.groups@,
                    var_key(vars@[i], pfx),
                ) >= 0 by {
                    lemma_index_of_group(groups2, var_key(vars@[i], pfx));
                    if i < t {
                        lemma_index_of_group(groups0, var_key(vars@[i], pfx));
                        let gk = index_of_group(groups0, var_key(vars@[i], pfx));
                        assert(0 <= gk < groups0.len());
                        assert(groups1[gk] == groups0[gk] || (gk == gi && groups1[gk].name@
                            == key@));
                        assert(groups2[gk].name == groups1[gk].name);
                        assert(groups2[gk].name@ == var_key(vars@[i], pfx));
                    } else {
                        assert(groups2[gi as int].name@ == key@);
                    }
                }
            }
        } else {
            proof {
                let taken1 = vars@.take(t as int + 1);
                assert(!belongs(vars@[t as int], pfx));
                assert forall|gi: int| 0 <= gi < pal.groups@.len() implies group_vars(
                    taken1,
                    pfx,
                    (#[trigger] pal.groups@[gi]).name@,
                ) =~= group_vars(taken, pfx, pal.groups@[gi].name@) by {
                    reveal(Seq::filter);
                    assert(taken1.drop_last() =~= taken);
                    assert(taken1.last() == vars@[t as int]);
                }
                assert(!has_duplicate(taken1, pfx)) by {
                    assert forall|a: int, b: int|
                        0 <= a < b < taken1.len() && belongs(#[trigger] taken1[a], pfx)
                            && belongs(#[trigger] taken1[b], pfx) && var_key(taken1[a], pfx)
                            == var_key(taken1[b], pfx) implies trailing_segment(taken1[a].name@)
                        != trailing_segment(taken1[b].name@) by {
                        assert(taken1[a] == vars@[a]);
                        assert(taken1[b] == vars@[b]);
                        assert(b < t);
                        assert(taken[a] == vars@[a] && taken[b] == vars@[b]);
                    }
                }
            }
        }
        t += 1;
    }
    proof {
        assert(vars@.take(n as int) =~= vars@);
    }
    Ok(pal)
}

/// Whether a name is claimed on save: it starts with `"<prefix> / <group>"`
/// for one of the touched groups.
pub open spec fn removed_name(name: Seq<char>, prefix: Seq<char>, touched: Seq<String>) -> bool {
    exists|k: int|
        0 <= k < touched.len() && link_name(prefix, (#[trigger] touched[k])@).is_prefix_of(name)
}

/// The variables that survive the removal pass, in their original order.
pub open spec fn kept_vars(vars: Seq<ColorVariable>, prefix: Seq<char>, touched: Seq<String>)
    -> Seq<ColorVariable> {
    vars.filter(|v: ColorVariable| !removed_name(v.name@, prefix, touched))
}

/// The number of entries the first `k` touched groups append.
pub open spec fn appended_len(groups: Seq<PaletteGroup>, touched: Seq<String>, k: int) -> int
    decreases k,
{
    if k <= 0 {
        0
    } else {
        appended_len(groups, touched, k - 1) + groups[index_of_group(
            groups,
            touched[k - 1]@,
        )].entries@.len()
    }
}

pub proof fn lemma_appended_len_nonneg(groups: Seq<PaletteGroup>, touched: Seq<String>, k: int)
    requires
        forall|j: int|
            0 <= j < touched.len() ==> index_of_group(groups, (#[trigger] touched[j])@) >= 0,
        k <= touched.len(),
    ensures
        appended_len(groups, touched, k) >= 0,
    decreases k,
{
    if k > 0 {
        lemma_appended_len_nonneg(groups, touched, k - 1);
    }
}

pub proof fn lemma_appended_len_mono(groups: Seq<PaletteGroup>, touched: Seq<String>, a: int, b: int)
    requires
        forall|j: int|
            0 <= j < touched.len() ==> index_of_group(groups, (#[trigger] touched[j])@) >= 0,
        0 <= a <= b <= touched.len(),
    ensures
        appended_len(groups, touched, a) <= appended_len(groups, touched, b),
    decreases b,
{
    if a < b {
        lemma_appended_len_mono(groups, touched, a, b - 1);
    }
}

/// Whether the name starts with the removal prefix of one touched group.
fn is_removed_name(name: &str, prefix: &str, touched: &Vec<String>) -> (r: bool)
    ensures
        r == removed_name(name@, prefix@, touched@),
{
    let n = touched.len();
    let mut k: usize = 0;
    while k < n
        invariant
            0 <= k <= n,
            n == touched@.len(),
            forall|j: int|
                0 <= j < k ==> !link_name(prefix@, (#[trigger] touched@[j])@).is_prefix_of(name@),
        decreases n - k,
    {
        let rp = make_link_name(prefix, touched[k].as_str());
        if starts_with(name, rp.as_str()) {
            return true;
        }
        k += 1;
    }
    false
}

/// Write the palette back over the document's color variables.
///
/// For every touched group, every variable whose name starts with
/// `"<prefix> / <group>"` is removed, and the group's current entries are
/// appended at the tail in their stored order, touched group by touched
/// group. All other variables keep their relative order: variables outside
/// the prefix, or of untouched groups, are passed through verbatim.
pub fn save(
    vars: &Vec<ColorVariable>,
    palette: &Palette,
    touched: &Vec<String>,
    prefix: &str,
) -> (r: Vec<ColorVariable>)
    requires
        forall|k: int|
            0 <= k < touched@.len() ==> index_of_group(palette.groups@, (#[trigger] touched@[k])@)
                >= 0,
    ensures
        ({
            let kept = kept_vars(vars@, prefix@, touched@);
            let groups = palette.groups@;
            &&& r@.len() == kept.len() + appended_len(groups, touched@, touched@.len() as int)
            &&& r@.subrange(0, kept.len() as int) == kept
            &&& forall|k: int, j: int|
                0 <= k < touched@.len() && 0 <= j < groups[index_of_group(
                    groups,
                    touched@[k]@,
                )].entries@.len() ==> is_var_of(
                    #[trigger] r@[kept.len() + appended_len(groups, touched@, k) + j],
                    groups[index_of_group(groups, touched@[k]@)].entries@[j],
                )
        }),
{
    let ghost pfx = prefix@;
    let ghost tch = touched@;
    let ghost groups = palette.groups@;
    let mut out: Vec<ColorVariable> = Vec::new();
    let n = vars.len();
    let mut i: usize = 0;
    proof {
        assert(vars@.take(0) =~= Seq::<ColorVariable>::empty());
        reveal(Seq::filter);
    }
    // Keep the variables no touched group claims, in order.
    while i < n
        invariant
            0 <= i <= n,
            n == vars@.len(),
            pfx == prefix@,
            tch == touched@,
            out@ == kept_vars(vars@.take(i as int), pfx, tch),
        decreases n - i,
    {
        let v = &vars[i];
        proof {
            reveal(Seq::filter);
            assert(vars@.take(i as int + 1) =~= vars@.take(i as int).push(vars@[i as int]));
            assert(vars@.take(i as int + 1).drop_last() =~= vars@.take(i as int));
        }
        if !is_removed_name(v.name.as_str(), prefix, touched) {
            let copied = ColorVariable {
                id: v.id.clone(),
                version: v.version,
                name: v.name.clone(),
                value: v.value.clone(),
            };
            proof {
                assert(copied == vars@[i as int]);
            }
            out.push(copied);
        }
        i += 1;
    }
    proof {
        assert(vars@.take(n as int) =~= vars@);
    }
    let ghost kept = kept_vars(vars@, pfx, tch);
    let kept_len = out.len();
    proof {
        assert(out@.subrange(0, kept_len as int) =~= out@);
    }
    // Append the touched groups' entries at the tail, group by group.
    let m = touched.len();
    let mut k: usize = 0;
    while k < m
        invariant
            0 <= k <= m,
            m == touched@.len(),
            pfx == prefix@,
            tch == touched@,
            groups == palette.groups@,
            kept == kept_vars(vars@, pfx, tch),
            kept_len == kept.len(),
            forall|j: int|
                0 <= j < tch.len() ==> index_of_group(groups, (#[trigger] tch[j])@) >= 0,
            out@.len() == kept_len + appended_len(groups, tch, k as int),
            out@.subrange(0, kept_len as int) == kept,
            forall|k2: int, j: int|
                0 <= k2 < k && 0 <= j < groups[index_of_group(groups, tch[k2]@)].entries@.len()
                    ==> is_var_of(
                    #[trigger] out@[kept_len + appended_len(groups, tch, k2) + j],
                    groups[index_of_group(groups, tch[k2]@)].entries@[j],
                ),
        decreases m - k,
    {
        proof {
            lemma_index_of_group(groups, tch[k as int]@);
            lemma_appended_len_nonneg(groups, tch, k as int);
        }
        let gi = match find_group(palette, touched[k].as_str()) {
            Some(gi) => gi,
            None => {
                proof {
                    assert(false);
                }
                0
            },
        };
        let en = palette.groups[gi].entries.len();
        let mut j: usize = 0;
        while j < en
            invariant
                0 <= j <= en,
                0 <= k < m,
                m == tch.len(),
                gi < groups.len(),
                gi == index_of_group(groups, tch[k as int]@),
                en == groups[gi as int].entries@.len(),
                groups == palette.groups@,
                kept_len == kept.len(),
                kept == kept_vars(vars@, pfx, tch),
                forall|j2: int|
                    0 <= j2 < tch.len() ==> index_of_group(groups, (#[trigger] tch[j2])@) >= 0,
                out@.len() == kept_len + appended_len(groups, tch, k as int) + j,
                out@.subrange(0, kept_len as int) == kept,
                forall|k2: int, j2: int|
                    0 <= k2 < k && 0 <= j2 < groups[index_of_group(groups, tch[k2]@)].entries@.len()
                        ==> is_var_of(
                        #[trigger] out@[kept_len + appended_len(groups, tch, k2) + j2],
                        groups[index_of_group(groups, tch[k2]@)].entries@[j2],
                    ),
                forall|j2: int|
                    0 <= j2 < j ==> is_var_of(
                        #[trigger] out@[kept_len + appended_len(groups, tch, k as int) + j2],
                        groups[gi as int].entries@[j2],
                    ),
            decreases en - j,
        {
            proof {
                lemma_appended_len_nonneg(groups, tch, k as int);
            }
            let e = &palette.groups[gi].entries[j];
            let ghost out0 = out@;
            out.push(
                ColorVariable {
                    id: e.id.clone(),
                    version: e.version,
                    name: e.name.clone(),
                    value: e.hex.clone(),
                },
            );
            proof {
                assert(out@.subrange(0, kept_len as int) =~= out0.subrange(0, kept_len as int));
                assert(is_var_of(out@.last(), groups[gi as int].entries@[j as int]));
                assert forall|k2: int, j2: int|
                    0 <= k2 < k && 0 <= j2 < groups[index_of_group(
                        groups,
                        tch[k2]@,
                    )].entries@.len() implies is_var_of(
                    #[trigger] out@[kept_len + appended_len(groups, tch, k2) + j2],
                    groups[index_of_group(groups, tch[k2]@)].entries@[j2],
                ) by {
                    lemma_appended_len_mono(groups, tch, k2 + 1, k as int);
                    lemma_appended_len_nonneg(groups, tch, k2);
                    assert(appended_len(groups, tch, k2 + 1) == appended_len(groups, tch, k2)
                        + groups[index_of_group(groups, tch[k2]@)].entries@.len());
                    assert(kept_len + appended_len(groups, tch, k2) + j2 < out0.len());
                    assert(out@[kept_len + appended_len(groups, tch, k2) + j2] == out0[kept_len
                        + appended_len(groups, tch, k2) + j2]);
                }
                assert forall|j2: int| 0 <= j2 < j + 1 implies is_var_of(
                    #[trigger] out@[kept_len + appended_len(groups, tch, k as int) + j2],
                    groups[gi as int].entries@[j2],
                ) by {
                    lemma_appended_len_nonneg(groups, tch, k as int);
                    if j2 < j {
                        assert(out@[kept_len + appended_len(groups, tch, k as int) + j2]
                            == out0[kept_len + appended_len(groups, tch, k as int) + j2]);
                    } else {
                        assert(kept_len + appended_len(groups, tch, k as int) + j2 == out@.len()
                            - 1);
                    }
                }
            }
            j += 1;
        }
        k += 1;
        proof {
            assert(appended_len(groups, tch, k as int) == appended_len(groups, tch, k as int - 1)
                + groups[gi as int].entries@.len());
            assert forall|k2: int, j2: int|
                0 <= k2 < k && 0 <= j2 < groups[index_of_group(groups, tch[k2]@)].entries@.len()
                implies is_var_of(
                #[trigger] out@[kept_len + appended_len(groups, tch, k2) + j2],
                groups[index_of_group(groups, tch[k2]@)].entries@[j2],
            ) by {
                if k2 == k - 1 {
                    assert(index_of_group(groups, tch[k2]@) == gi);
                    assert(is_var_of(
                        out@[kept_len + appended_len(groups, tch, k2) + j2],
                        groups[gi as int].entries@[j2],
                    ));
                }
            }
        }
    }
    out
}

} // verus!
