//! Palette model and reconciler: named groups of persisted color entries
//! with stable identity tokens and version counters, and the merge of a
//! freshly generated scale into them.
//!
//! Matching is by stop identity within a group: a generated color addresses
//! the existing entry whose qualified name has the same trailing
//! `<stem>.<stop>` segment, not the entry with the same hex or position.

use vstd::prelude::*;

use base64::Engine;

use crate::errors::UpdateError;
use crate::scale::{BaseColorRequest, GeneratedColor};

use crate::strutil::{
    dec_str, lemma_dec_str_digits, lemma_last_slash_unique, lemma_leading_spaces_agree,
    lemma_trailing_spaces_agree, lemma_trailing_segment_clean, no_slash, str_eq, first_segment,
    first_segment_of, trailing_segment, trailing_segment_of, trim_spaces, trimmed, u32_to_dec,
};

verus! {

/// Relies on `uuid::Uuid::new_v4`: a freshly drawn random UUID, handed out
/// as its sixteen bytes. Nothing is assumed of the values: the result is
/// random.
#[verifier::external_body]
fn fresh_id_bytes() -> (r: Vec<u8>)
    ensures
        r@.len() == 16,
{
    uuid::Uuid::new_v4().as_bytes().to_vec()
}

/// The URL-safe unpadded base64 text of a byte string, a pure function of
/// the bytes.
pub uninterp spec fn b64url_of(bytes: Seq<u8>) -> Seq<char>;

/// Relies on base64's `Engine::encode` with the `URL_SAFE_NO_PAD` engine:
/// deterministic base64 text of the input bytes.
#[verifier::external_body]
fn encode_token(bytes: &Vec<u8>) -> (r: String)
    ensures
        r@ == b64url_of(bytes@),
{
    base64::engine::general_purpose::URL_SAFE_NO_PAD.encode(bytes.as_slice())
}

/// Mint a fresh opaque identity token for a new palette entry.
///
/// The token is random: two calls may (and almost surely do) differ, so
/// nothing is stated of the value.
fn mint_token() -> String {
    let bytes = fresh_id_bytes();
    encode_token(&bytes)
}

/// A single persisted color: an opaque stable identity token, a version
/// counter that counts reconciliations, the qualified name, and the hex
/// value text.
#[derive(Clone, Debug)]
pub struct PaletteEntry {
    pub id: String,
    pub version: u32,
    pub name: String,
    pub hex: String,
}

impl PaletteEntry {
    /// Versions start at 1 and only increase.
    pub open spec fn wf(self) -> bool {
        self.version >= 1
    }
}

/// All entries sharing one group name, ordered; entries are keyed by the
/// trailing segment of their qualified name, which is unique in the group.
#[derive(Clone, Debug)]
pub struct PaletteGroup {
    pub name: String,
    pub entries: Vec<PaletteEntry>,
}

impl PaletteGroup {
    pub open spec fn wf(self) -> bool {
        (forall|i: int| 0 <= i < self.entries@.len() ==> (#[trigger] self.entries@[i]).wf())
            && (forall|i: int, j: int|
            0 <= i < j < self.entries@.len() ==> trailing_segment(
                #[trigger] self.entries@[i].name@,
            ) != trailing_segment(#[trigger] self.entries@[j].name@))
    }
}

/// The working set of groups of one invocation, with pairwise distinct
/// group names.
#[derive(Clone, Debug)]
pub struct Palette {
    pub groups: Vec<PaletteGroup>,
}

impl Palette {
    pub open spec fn wf(self) -> bool {
        (forall|i: int| 0 <= i < self.groups@.len() ==> (#[trigger] self.groups@[i]).wf()) && (
        forall|i: int, j: int|
            0 <= i < j < self.groups@.len() ==> (#[trigger] self.groups@[i]).name@ != (
            #[trigger] self.groups@[j]).name@)
    }
}

/// The separator written between the parts of a qualified name.
pub open spec fn sep_chars() -> Seq<char> {
    seq![' ', '/', ' ']
}

/// The stop-qualified suffix of a generated color: `<stem>.<stop>`.
pub open spec fn gen_suffix(stem: Seq<char>, stop: nat) -> Seq<char> {
    stem + seq!['.'] + dec_str(stop)
}

/// The fully qualified name written into the document:
/// `<prefix> / <group> / <stem>.<stop>`.
pub open spec fn qualified_name(prefix: Seq<char>, group: Seq<char>, stem: Seq<char>, stop: nat)
    -> Seq<char> {
    prefix + sep_chars() + group + sep_chars() + stem + seq!['.'] + dec_str(stop)
}

/// The qualified name of a link entry: `<prefix> / <name>`.
pub open spec fn link_name(prefix: Seq<char>, name: Seq<char>) -> Seq<char> {
    prefix + sep_chars() + name
}

/// The trailing segment of a qualified name is exactly its stop-qualified
/// suffix, provided the stem is clean (no slash, no surrounding spaces), as
/// every stem cut out of a name by `trailing_segment` is.
pub proof fn lemma_trailing_of_qualified(
    prefix: Seq<char>,
    group: Seq<char>,
    stem: Seq<char>,
    stop: nat,
)
    requires
        no_slash(stem),
        trimmed(stem),
    ensures
        trailing_segment(qualified_name(prefix, group, stem, stop)) == gen_suffix(stem, stop),
{
    let q = qualified_name(prefix, group, stem, stop);
    let k = prefix.len() + 3 + group.len() + 1;
    lemma_dec_str_digits(stop);
    assert(q[k as int] == '/');
    assert forall|i: int| k < i < q.len() implies q[i] != '/' by {
        let tail_start = prefix.len() + 3 + group.len() + 3;
        if i >= tail_start + stem.len() + 1 {
            assert(q[i] == dec_str(stop)[i - tail_start - stem.len() - 1]);
        } else if i >= tail_start + stem.len() {
            assert(q[i] == '.');
        } else if i >= tail_start {
            assert(q[i] == stem[i - tail_start]);
        } else {
            assert(q[i] == ' ');
        }
    }
    lemma_last_slash_unique(q, k as int);
    let tail = q.skip(k as int + 1);
    let suf = gen_suffix(stem, stop);
    assert(tail =~= seq![' '] + suf);
    // The leading space is trimmed away and nothing else: the suffix starts
    // with the stem's first character or `.` and ends with a digit.
    assert(tail[0] == ' ');
    if stem.len() > 0 {
        assert(tail[1] == stem[0]);
    } else {
        assert(tail[1] == '.');
    }
    assert(tail[tail.len() - 1] == dec_str(stop)[dec_str(stop).len() - 1]);
    lemma_leading_spaces_agree(tail, 1);
    lemma_trailing_spaces_agree(tail, tail.len() as int);
    assert(trim_spaces(tail) =~= suf);
}

/// Build the stop-qualified suffix `<stem>.<stop>` of a generated color.
pub fn make_suffix(stem: &str, stop: u32) -> (r: String)
    ensures
        r@ == gen_suffix(stem@, stop as nat),
{
    let mut out = stem.to_owned();
    out.append(".");
    out.append(u32_to_dec(stop).as_str());
    proof {
        reveal_strlit(".");
        assert(out@ =~= gen_suffix(stem@, stop as nat));
    }
    out
}

/// Build the fully qualified document name `<prefix> / <group> / <stem>.<stop>`.
pub fn make_qualified(prefix: &str, group: &str, stem: &str, stop: u32) -> (r: String)
    ensures
        r@ == qualified_name(prefix@, group@, stem@, stop as nat),
{
    let mut out = prefix.to_owned();
    out.append(" / ");
    out.append(group);
    out.append(" / ");
    out.append(stem);
    out.append(".");
    out.append(u32_to_dec(stop).as_str());
    proof {
        reveal_strlit(" / ");
        reveal_strlit(".");
        assert(" / "@ =~= sep_chars());
        assert(out@ =~= qualified_name(prefix@, group@, stem@, stop as nat));
    }
    out
}

/// Build the qualified name `<prefix> / <name>` of a link entry.
pub fn make_link_name(prefix: &str, name: &str) -> (r: String)
    ensures
        r@ == link_name(prefix@, name@),
{
    let mut out = prefix.to_owned();
    out.append(" / ");
    out.append(name);
    proof {
        reveal_strlit(" / ");
        assert(" / "@ =~= sep_chars());
        assert(out@ =~= link_name(prefix@, name@));
    }
    out
}

/// The index of the first entry whose qualified name has the trailing
/// segment `suf`, or `-1` if there is none.
pub open spec fn index_of_suffix(entries: Seq<PaletteEntry>, suf: Seq<char>) -> int
    decreases entries.len(),
{
    if entries.len() == 0 {
        -1
    } else if trailing_segment(entries[0].name@) == suf {
        0
    } else {
        let r = index_of_suffix(entries.drop_first(), suf);
        if r < 0 {
            -1
        } else {
            r + 1
        }
    }
}

pub proof fn lemma_index_of_suffix(entries: Seq<PaletteEntry>, suf: Seq<char>)
    ensures
        -1 <= index_of_suffix(entries, suf) < entries.len(),
        index_of_suffix(entries, suf) >= 0 ==> trailing_segment(
            entries[index_of_suffix(entries, suf)].name@,
        ) == suf,
        forall|i: int|
            0 <= i < entries.len() && trailing_segment(#[trigger] entries[i].name@) == suf
                ==> index_of_suffix(entries, suf) >= 0 && index_of_suffix(entries, suf) <= i,
    decreases entries.len(),
{
    if entries.len() > 0 && trailing_segment(entries[0].name@) != suf {
        lemma_index_of_suffix(entries.drop_first(), suf);
        assert forall|i: int|
            0 <= i < entries.len() && trailing_segment(#[trigger] entries[i].name@) == suf
            implies index_of_suffix(entries, suf) >= 0 && index_of_suffix(entries, suf)
            <= i by {
            if i == 0 {
                assert(trailing_segment(entries[0].name@) == suf);
                assert(false);
            }
            assert(entries.drop_first()[i - 1] == entries[i]);
            assert(trailing_segment(entries.drop_first()[i - 1].name@) == suf);
        }
    }
}

/// One reconciled entry: the stable id of the matched entry is kept, the
/// version advances by exactly one, name and hex are overwritten.
pub open spec fn merged_update(
    new_e: PaletteEntry,
    old_e: PaletteEntry,
    name: Seq<char>,
    hex: Seq<char>,
) -> bool {
    new_e.id == old_e.id && new_e.version == old_e.version + 1 && new_e.name@ == name
        && new_e.hex@ == hex
}

/// One freshly inserted entry: version 1 and the given name and hex (its id
/// is freshly minted, so nothing is stated of it).
pub open spec fn merged_fresh(new_e: PaletteEntry, name: Seq<char>, hex: Seq<char>) -> bool {
    new_e.version == 1 && new_e.name@ == name && new_e.hex@ == hex
}

/// The merge of one named color into a group's entries: the entry whose
/// trailing segment matches is updated in place, every other entry is kept
/// as it stands; with no match, a fresh entry is appended.
pub open spec fn merge_one(
    old: Seq<PaletteEntry>,
    new: Seq<PaletteEntry>,
    name: Seq<char>,
    hex: Seq<char>,
) -> bool {
    let idx = index_of_suffix(old, trailing_segment(name));
    if idx >= 0 {
        new.len() == old.len() && (forall|j: int|
            0 <= j < old.len() && j != idx ==> new[j] == old[j]) && merged_update(
            new[idx],
            old[idx],
            name,
            hex,
        )
    } else {
        new.len() == old.len() + 1 && (forall|j: int| 0 <= j < old.len() ==> new[j] == old[j])
            && merged_fresh(new.last(), name, hex)
    }
}

/// Update the entry of `group` addressed by the trailing segment of `name`,
/// or append a new one.
///
/// When an entry with the same trailing segment exists, its stable `id` is
/// kept, its version is incremented by exactly one (the counter counts
/// reconciliations, so this happens even when the hex is unchanged), and
/// its name and hex are overwritten. Otherwise a fresh entry with a newly
/// minted id and version 1 is appended.
pub fn update_by_name(group: &mut PaletteGroup, name: String, hex: String)
    requires
        old(group).wf(),
        forall|i: int|
            0 <= i < old(group).entries@.len() && trailing_segment(
                (#[trigger] old(group).entries@[i]).name@,
            ) == trailing_segment(name@) ==> old(group).entries@[i].version < u32::MAX,
    ensures
        final(group).name == old(group).name,
        final(group).wf(),
        merge_one(old(group).entries@, final(group).entries@, name@, hex@),
{
    let suffix = trailing_segment_of(name.as_str());
    let ghost entries0 = group.entries@;
    let ghost suf = trailing_segment(name@);
    proof {
        lemma_index_of_suffix(entries0, suf);
    }
    let n = group.entries.len();
    let mut i: usize = 0;
    while i < n
        invariant
            0 <= i <= n,
            n == group.entries@.len(),
            group == old(group),
            group.entries@ == entries0,
            old(group).wf(),
            forall|j: int|
                0 <= j < entries0.len() && trailing_segment(
                    (#[trigger] entries0[j]).name@,
                ) == suf ==> entries0[j].version < u32::MAX,
            suffix@ == suf,
            suf == trailing_segment(name@),
            forall|j: int| 0 <= j < i ==> trailing_segment((#[trigger] entries0[j]).name@) != suf,
        decreases n - i,
    {
        let entry_suffix = trailing_segment_of(group.entries[i].name.as_str());
        if str_eq(entry_suffix.as_str(), suffix.as_str()) {
            proof {
                lemma_index_of_suffix(entries0, suf);
                assert(index_of_suffix(entries0, suf) == i);
            }
            let updated = PaletteEntry {
                id: group.entries[i].id.clone(),
                version: group.entries[i].version + 1,
                name,
                hex,
            };
            group.entries[i] = updated;
            proof {
                let e1 = group.entries@;
                assert forall|a: int, b: int| 0 <= a < b < e1.len() implies trailing_segment(
                    (#[trigger] e1[a]).name@,
                ) != trailing_segment((#[trigger] e1[b]).name@) by {
                    assert(trailing_segment(e1[i as int].name@) == suf);
                    if a != i && b != i {
                        assert(e1[a] == entries0[a] && e1[b] == entries0[b]);
                    } else if a == i {
                        assert(e1[b] == entries0[b]);
                        assert(trailing_segment(entries0[b].name@) != trailing_segment(
                            entries0[i as int].name@,
                        ));
                    } else {
                        assert(e1[a] == entries0[a]);
                        assert(trailing_segment(entries0[a].name@) != trailing_segment(
                            entries0[i as int].name@,
                        ));
                    }
                }
            }
            return;
        }
        i += 1;
    }
    let id = mint_token();
    group.entries.push(PaletteEntry { id, version: 1, name, hex });
    proof {
        lemma_index_of_suffix(entries0, suf);
        assert(index_of_suffix(entries0, suf) == -1);
        let e1 = group.entries@;
        assert forall|a: int, b: int| 0 <= a < b < e1.len() implies trailing_segment(
            (#[trigger] e1[a]).name@,
        ) != trailing_segment((#[trigger] e1[b]).name@) by {
            if b == e1.len() - 1 {
                assert(e1[a] == entries0[a]);
                assert(trailing_segment(e1[b].name@) == suf);
            } else {
                assert(e1[a] == entries0[a] && e1[b] == entries0[b]);
            }
        }
    }
}

/// The suffix by which a generated color addresses an entry of its group:
/// `<stem>.<stop>`, with the stem cut from the request name.
pub open spec fn step_suffix(g: GeneratedColor) -> Seq<char> {
    gen_suffix(trailing_segment(g.name@), g.stop as nat)
}

/// The qualified name a generated color is persisted under.
pub open spec fn step_qualified(prefix: Seq<char>, group: Seq<char>, g: GeneratedColor)
    -> Seq<char> {
    qualified_name(prefix, group, trailing_segment(g.name@), g.stop as nat)
}

/// The index of the first generated color with the given suffix, or `-1`.
pub open spec fn first_gen_matching(gens: Seq<GeneratedColor>, suf: Seq<char>) -> int
    decreases gens.len(),
{
    if gens.len() == 0 {
        -1
    } else if step_suffix(gens[0]) == suf {
        0
    } else {
        let r = first_gen_matching(gens.drop_first(), suf);
        if r < 0 {
            -1
        } else {
            r + 1
        }
    }
}

pub proof fn lemma_first_gen_matching(gens: Seq<GeneratedColor>, suf: Seq<char>)
    ensures
        -1 <= first_gen_matching(gens, suf) < gens.len(),
        first_gen_matching(gens, suf) >= 0 ==> step_suffix(gens[first_gen_matching(gens, suf)])
            == suf,
        forall|k: int|
            0 <= k < gens.len() && step_suffix(#[trigger] gens[k]) == suf ==> first_gen_matching(
                gens,
                suf,
            ) >= 0 && first_gen_matching(gens, suf) <= k,
    decreases gens.len(),
{
    if gens.len() > 0 && step_suffix(gens[0]) != suf {
        lemma_first_gen_matching(gens.drop_first(), suf);
        assert forall|k: int|
            0 <= k < gens.len() && step_suffix(#[trigger] gens[k]) == suf implies
            first_gen_matching(gens, suf) >= 0 && first_gen_matching(gens, suf) <= k by {
            assert(k >= 1);
            assert(gens.drop_first()[k - 1] == gens[k]);
        }
    }
}

/// Appending one generated color extends the first-match index on the right.
pub proof fn lemma_first_gen_matching_push(
    gens: Seq<GeneratedColor>,
    g: GeneratedColor,
    suf: Seq<char>,
)
    ensures
        first_gen_matching(gens.push(g), suf) == if first_gen_matching(gens, suf) >= 0 {
            first_gen_matching(gens, suf)
        } else if step_suffix(g) == suf {
            gens.len() as int
        } else {
            -1
        },
    decreases gens.len(),
{
    if gens.len() == 0 {
        assert(gens.push(g)[0] == g);
        assert(gens.push(g).len() == 1);
        assert(gens.push(g).drop_first() =~= Seq::<GeneratedColor>::empty());
        assert(first_gen_matching(gens, suf) == -1);
        if step_suffix(g) == suf {
            assert(first_gen_matching(gens.push(g), suf) == 0);
        } else {
            assert(first_gen_matching(Seq::<GeneratedColor>::empty(), suf) == -1);
            assert(first_gen_matching(gens.push(g), suf) == -1);
        }
    } else {
        assert(gens.push(g)[0] == gens[0]);
        assert(gens.push(g).drop_first() =~= gens.drop_first().push(g));
        lemma_first_gen_matching_push(gens.drop_first(), g, suf);
        let r1 = first_gen_matching(gens.drop_first().push(g), suf);
        let r0 = first_gen_matching(gens.drop_first(), suf);
        if step_suffix(gens[0]) == suf {
            assert(first_gen_matching(gens.push(g), suf) == 0);
            assert(first_gen_matching(gens, suf) == 0);
        } else {
            assert(first_gen_matching(gens.push(g), suf) == if r1 < 0 {
                -1
            } else {
                r1 + 1
            });
            assert(first_gen_matching(gens, suf) == if r0 < 0 {
                -1
            } else {
                r0 + 1
            });
        }
    }
}

/// The generated colors that address no existing entry of `old` and so will
/// be appended as fresh entries, in scale order.
pub open spec fn gen_unmatched(gens: Seq<GeneratedColor>, old: Seq<PaletteEntry>)
    -> Seq<GeneratedColor> {
    gens.filter(|g: GeneratedColor| index_of_suffix(old, step_suffix(g)) < 0)
}

/// Pairwise distinct suffixes, as the nine stops of one scale always have.
pub open spec fn distinct_suffixes(gens: Seq<GeneratedColor>) -> bool {
    forall|a: int, b: int|
        0 <= a < b < gens.len() ==> step_suffix(#[trigger] gens[a]) != step_suffix(
            #[trigger] gens[b],
        )
}

/// The merge of a whole generated scale into a group, in closed form: every
/// existing entry addressed by some generated color is updated in place
/// (stable id, version advanced by one, name and hex overwritten with the
/// generated ones), every other existing entry is kept untouched at its
/// position, and the generated colors that addressed nothing are appended
/// behind them as fresh version-1 entries, in scale order.
pub open spec fn merged_scale(
    prefix: Seq<char>,
    group: Seq<char>,
    old: Seq<PaletteEntry>,
    gens: Seq<GeneratedColor>,
    new: Seq<PaletteEntry>,
) -> bool {
    let um = gen_unmatched(gens, old);
    new.len() == old.len() + um.len() && (forall|i: int|
        0 <= i < old.len() ==> {
            let k = first_gen_matching(gens, trailing_segment((#[trigger] old[i]).name@));
            if k >= 0 {
                merged_update(new[i], old[i], step_qualified(prefix, group, gens[k]), gens[k].hex@)
            } else {
                new[i] == old[i]
            }
        }) && (forall|j: int|
        0 <= j < um.len() ==> merged_fresh(
            #[trigger] new[old.len() + j],
            step_qualified(prefix, group, um[j]),
            um[j].hex@,
        ))
}

/// Merge a generated scale into its group, preserving stable identities.
///
/// This is the stop-identity-preserving merge: additive, never deleting,
/// keying on the trailing `<stem>.<stop>` segment of qualified names. For
/// the full-replace policy, empty the group first.
#[verifier::rlimit(100)]
pub fn reconcile_scale(group: &mut PaletteGroup, prefix: &str, gens: &Vec<GeneratedColor>)
    requires
        old(group).wf(),
        forall|i: int|
            0 <= i < old(group).entries@.len() ==> (#[trigger] old(group).entries@[i]).version < u32::MAX,
        distinct_suffixes(gens@),
    ensures
        final(group).name == old(group).name,
        final(group).wf(),
        merged_scale(
            prefix@,
            old(group).name@,
            old(group).entries@,
            gens@,
            final(group).entries@,
        ),
{
    let ghost old0 = old(group).entries@;
    let ghost gname = old(group).name@;
    let ghost pfx = prefix@;
    let n = gens.len();
    let mut t: usize = 0;
    proof {
        assert(gens@.take(0) =~= Seq::<GeneratedColor>::empty());
        reveal(Seq::filter);
        assert(gen_unmatched(gens@.take(0), old0) =~= Seq::<GeneratedColor>::empty());
    }
    while t < n
        invariant
            0 <= t <= n,
            n == gens@.len(),
            group.name == old(group).name,
            group.name@ == gname,
            pfx == prefix@,
            group.wf(),
            old(group).wf(),
            old0 == old(group).entries@,
            forall|i: int| 0 <= i < old0.len() ==> (#[trigger] old0[i]).version < u32::MAX,
            distinct_suffixes(gens@),
            old0.len() <= group.entries@.len(),
            merged_scale(pfx, gname, old0, gens@.take(t as int), group.entries@),
        decreases n - t,
    {
        let ghost taken = gens@.take(t as int);
        let ghost cur = group.entries@;
        let ghost um = gen_unmatched(taken, old0);
        let gen = &gens[t];
        let ghost s_t = step_suffix(*gen);
        let stem = trailing_segment_of(gen.name.as_str());
        let qualified = make_qualified(prefix, group.name.as_str(), stem.as_str(), gen.stop);
        proof {
            lemma_trailing_segment_clean(gen.name@);
            lemma_trailing_of_qualified(pfx, gname, stem@, gen.stop as nat);
            assert(trailing_segment(qualified@) == s_t);
            lemma_index_of_suffix(old0, s_t);
            lemma_first_gen_matching(taken, s_t);
            assert(taken.len() == t);
            assert(forall|k: int| 0 <= k < t ==> #[trigger] taken[k] == gens@[k]);
            // No processed step shares this suffix.
            assert(first_gen_matching(taken, s_t) == -1) by {
                if first_gen_matching(taken, s_t) >= 0 {
                    let k = first_gen_matching(taken, s_t);
                    assert(step_suffix(gens@[k]) == step_suffix(gens@[t as int]));
                }
            }
            // Every appended entry stems from a processed step.
            assert forall|j: int| 0 <= j < um.len() implies exists|k: int|
                0 <= k < t && #[trigger] um[j] == gens@[k] by {
                lemma_unmatched_from(taken, old0, j);
                let k = choose|k: int|
                    0 <= k < taken.len() && gen_unmatched(taken, old0)[j] == #[trigger] taken[k];
                assert(0 <= k < t && um[j] == gens@[k]);
            }
            // Suffix bookkeeping of the current entries, for the version
            // bound update_by_name asks for: nothing with this suffix has
            // been touched yet.
            assert forall|i: int|
                0 <= i < cur.len() && trailing_segment((#[trigger] cur[i]).name@)
                    == trailing_segment(qualified@) implies cur[i].version < u32::MAX by {
                lemma_entry_suffix_cases(pfx, gname, old0, taken, cur, i);
                if i < old0.len() {
                    let k = first_gen_matching(taken, trailing_segment(old0[i].name@));
                    if k >= 0 {
                        assert(step_suffix(gens@[k]) != step_suffix(gens@[t as int]));
                        assert(false);
                    } else {
                        assert(cur[i] == old0[i]);
                    }
                } else {
                    let j = i - old0.len();
                    let k = choose|k: int| 0 <= k < t && #[trigger] um[j] == gens@[k];
                    assert(trailing_segment(cur[i].name@) == step_suffix(gens@[k]));
                    assert(step_suffix(gens@[k]) != step_suffix(gens@[t as int]));
                    assert(false);
                }
            }
        }
        update_by_name(group, qualified, gen.hex.clone());
        proof {
            let cur1 = group.entries@;
            let idx = index_of_suffix(cur, s_t);
            let idx0 = index_of_suffix(old0, s_t);
            lemma_index_of_suffix(cur, s_t);
            lemma_index_of_suffix(old0, s_t);
            // The lookup among the current entries agrees with the lookup
            // among the original ones: an entry can carry s_t only if it is
            // an untouched original entry.
            assert forall|i: int|
                0 <= i < cur.len() && trailing_segment((#[trigger] cur[i]).name@) == s_t implies i
                < old0.len() && cur[i] == old0[i] && trailing_segment(old0[i].name@) == s_t by {
                lemma_entry_suffix_cases(pfx, gname, old0, taken, cur, i);
                if i < old0.len() {
                    let k = first_gen_matching(taken, trailing_segment(old0[i].name@));
                    if k >= 0 {
                        assert(step_suffix(gens@[k]) != step_suffix(gens@[t as int]));
                        assert(false);
                    }
                } else {
                    let j = i - old0.len();
                    let k = choose|k: int| 0 <= k < t && #[trigger] um[j] == gens@[k];
                    assert(trailing_segment(cur[i].name@) == step_suffix(gens@[k]));
                    assert(step_suffix(gens@[k]) != step_suffix(gens@[t as int]));
                    assert(false);
                }
            }
            if idx0 >= 0 {
                assert(first_gen_matching(taken, trailing_segment(old0[idx0].name@)) == -1);
                assert(cur[idx0] == old0[idx0]);
                assert(trailing_segment(cur[idx0].name@) == s_t);
                assert(idx == idx0);
            } else {
                assert(idx == -1) by {
                    if idx >= 0 {
                        assert(trailing_segment(cur[idx].name@) == s_t);
                    }
                }
            }
            // Step the ghost state.
            let taken1 = gens@.take(t as int + 1);
            assert(taken1 =~= taken.push(gens@[t as int]));
            let um1 = gen_unmatched(taken1, old0);
            reveal(Seq::filter);
            assert(taken1.drop_last() =~= taken);
            assert(taken1.last() == gens@[t as int]);
            if idx0 >= 0 {
                assert(um1 =~= um);
            } else {
                assert(um1 =~= um.push(gens@[t as int]));
            }
            assert(step_suffix(gens@[t as int]) == s_t);
            assert forall|i: int| 0 <= i < old0.len() implies ({
                let k = first_gen_matching(taken1, trailing_segment((#[trigger] old0[i]).name@));
                if k >= 0 {
                    merged_update(
                        cur1[i],
                        old0[i],
                        step_qualified(pfx, gname, taken1[k]),
                        taken1[k].hex@,
                    )
                } else {
                    cur1[i] == old0[i]
                }
            }) by {
                let suf_i = trailing_segment(old0[i].name@);
                lemma_first_gen_matching_push(taken, gens@[t as int], suf_i);
                lemma_first_gen_matching(taken, suf_i);
                let k0 = first_gen_matching(taken, suf_i);
                if suf_i == s_t {
                    assert(idx0 >= 0 && idx0 <= i);
                    assert(i == idx0) by {
                        if i != idx0 {
                            assert(trailing_segment(old0[idx0].name@) == trailing_segment(
                                old0[i].name@,
                            ));
                        }
                    }
                    assert(k0 == -1);
                    assert(first_gen_matching(taken1, suf_i) == t);
                    assert(taken1[t as int] == gens@[t as int]);
                    assert(merged_update(cur1[i], cur[i], qualified@, gens@[t as int].hex@));
                    assert(qualified@ == step_qualified(pfx, gname, gens@[t as int]));
                } else {
                    assert(first_gen_matching(taken1, suf_i) == k0);
                    assert(i != idx);
                    assert(cur1[i] == cur[i]);
                    if k0 >= 0 {
                        assert(taken1[k0] == taken[k0]);
                        assert(merged_update(
                            cur[i],
                            old0[i],
                            step_qualified(pfx, gname, taken[k0]),
                            taken[k0].hex@,
                        ));
                    } else {
                        assert(cur[i] == old0[i]);
                    }
                }
            }
            assert forall|j: int| 0 <= j < um1.len() implies merged_fresh(
                #[trigger] cur1[old0.len() + j],
                step_qualified(pfx, gname, um1[j]),
                um1[j].hex@,
            ) by {
                if idx0 >= 0 {
                    assert(um1[j] == um[j]);
                    assert(old0.len() + j != idx);
                    assert(cur1[old0.len() + j] == cur[old0.len() + j]);
                } else {
                    if j < um.len() {
                        assert(um1[j] == um[j]);
                        assert(cur1[old0.len() + j] == cur[old0.len() + j]);
                    } else {
                        assert(um1[j] == gens@[t as int]);
                        assert(old0.len() + j == cur.len());
                        assert(merged_fresh(cur1.last(), qualified@, gens@[t as int].hex@));
                        assert(qualified@ == step_qualified(pfx, gname, gens@[t as int]));
                    }
                }
            }
            assert(merged_scale(pfx, gname, old0, taken1, cur1));
        }
        t += 1;
    }
    proof {
        assert(gens@.take(n as int) =~= gens@);
    }
}

/// Every unaddressed generated color is one of the generated colors.
proof fn lemma_unmatched_from(taken: Seq<GeneratedColor>, old0: Seq<PaletteEntry>, j: int)
    requires
        0 <= j < gen_unmatched(taken, old0).len(),
    ensures
        exists|k: int|
            0 <= k < taken.len() && gen_unmatched(taken, old0)[j] == #[trigger] taken[k],
    decreases taken.len(),
{
    reveal(Seq::filter);
    let pred = |g: GeneratedColor| index_of_suffix(old0, step_suffix(g)) < 0;
    let um = gen_unmatched(taken, old0);
    assert(taken.len() > 0);
    let prev = taken.drop_last();
    assert(gen_unmatched(prev, old0) == prev.filter(pred));
    if pred(taken.last()) {
        if j < um.len() - 1 {
            lemma_unmatched_from(prev, old0, j);
            let k = choose|k: int|
                0 <= k < prev.len() && gen_unmatched(prev, old0)[j] == #[trigger] prev[k];
            assert(taken[k] == prev[k]);
        } else {
            assert(um[j] == taken[taken.len() - 1]);
        }
    } else {
        lemma_unmatched_from(prev, old0, j);
        let k = choose|k: int|
            0 <= k < prev.len() && gen_unmatched(prev, old0)[j] == #[trigger] prev[k];
        assert(taken[k] == prev[k]);
    }
}

/// Where each current entry of a partially reconciled group comes from:
/// an original entry updated by the processed step that addressed it, an
/// untouched original entry, or a fresh entry appended for an unaddressed
/// processed step; with the trailing segment each case carries.
proof fn lemma_entry_suffix_cases(
    pfx: Seq<char>,
    gname: Seq<char>,
    old0: Seq<PaletteEntry>,
    taken: Seq<GeneratedColor>,
    cur: Seq<PaletteEntry>,
    i: int,
)
    requires
        merged_scale(pfx, gname, old0, taken, cur),
        0 <= i < cur.len(),
    ensures
        i < old0.len() ==> ({
            let k = first_gen_matching(taken, trailing_segment(old0[i].name@));
            if k >= 0 {
                0 <= k < taken.len() && merged_update(
                    cur[i],
                    old0[i],
                    step_qualified(pfx, gname, taken[k]),
                    taken[k].hex@,
                ) && trailing_segment(cur[i].name@) == step_suffix(taken[k])
            } else {
                cur[i] == old0[i]
            }
        }),
        i >= old0.len() ==> ({
            let um = gen_unmatched(taken, old0);
            let j = i - old0.len();
            0 <= j < um.len() && merged_fresh(cur[i], step_qualified(pfx, gname, um[j]), um[j].hex@)
                && trailing_segment(cur[i].name@) == step_suffix(um[j])
        }),
{
    if i < old0.len() {
        let suf_i = trailing_segment(old0[i].name@);
        let k = first_gen_matching(taken, suf_i);
        lemma_first_gen_matching(taken, suf_i);
        if k >= 0 {
            lemma_trailing_segment_clean(taken[k].name@);
            lemma_trailing_of_qualified(
                pfx,
                gname,
                trailing_segment(taken[k].name@),
                taken[k].stop as nat,
            );
        }
    } else {
        let um = gen_unmatched(taken, old0);
        let j = i - old0.len();
        assert(merged_fresh(cur[old0.len() + j], step_qualified(pfx, gname, um[j]), um[j].hex@));
        lemma_trailing_segment_clean(um[j].name@);
        lemma_trailing_of_qualified(
            pfx,
            gname,
            trailing_segment(um[j].name@),
            um[j].stop as nat,
        );
    }
}


/// A filter keeps nothing when its predicate holds of no element.
proof fn lemma_filter_empty<A>(s: Seq<A>, pred: spec_fn(A) -> bool)
    requires
        forall|k: int| 0 <= k < s.len() ==> !pred(#[trigger] s[k]),
    ensures
        s.filter(pred).len() == 0,
    decreases s.len(),
{
    reveal(Seq::filter);
    if s.len() > 0 {
        assert(!pred(s.last()));
        lemma_filter_empty(s.drop_last(), pred);
    }
}

/// A generated color that addresses no entry occurs among the unaddressed.
proof fn lemma_unmatched_member(taken: Seq<GeneratedColor>, old0: Seq<PaletteEntry>, k: int)
    requires
        0 <= k < taken.len(),
        index_of_suffix(old0, step_suffix(taken[k])) < 0,
    ensures
        exists|j: int|
            0 <= j < gen_unmatched(taken, old0).len() && #[trigger] gen_unmatched(
                taken,
                old0,
            )[j] == taken[k],
    decreases taken.len(),
{
    reveal(Seq::filter);
    let pred = |g: GeneratedColor| index_of_suffix(old0, step_suffix(g)) < 0;
    let um = gen_unmatched(taken, old0);
    let prev = taken.drop_last();
    assert(gen_unmatched(prev, old0) == prev.filter(pred));
    if k == taken.len() - 1 {
        assert(pred(taken.last()));
        assert(um[um.len() - 1] == taken[k]);
    } else {
        lemma_unmatched_member(prev, old0, k);
        let j = choose|j: int|
            0 <= j < gen_unmatched(prev, old0).len() && #[trigger] gen_unmatched(
                prev,
                old0,
            )[j] == prev[k];
        assert(prev[k] == taken[k]);
        if pred(taken.last()) {
            assert(um[j] == gen_unmatched(prev, old0)[j]);
        } else {
            assert(um == gen_unmatched(prev, old0));
        }
    }
}

/// After a merge, the entries that came from existing entries keep their
/// old trailing segment, and the appended ones carry the suffixes of the
/// unaddressed generated colors; all segments stay pairwise distinct.
proof fn lemma_merged_scale_suffixes(
    prefix: Seq<char>,
    group: Seq<char>,
    old: Seq<PaletteEntry>,
    gens: Seq<GeneratedColor>,
    new: Seq<PaletteEntry>,
)
    requires
        merged_scale(prefix, group, old, gens, new),
    ensures
        forall|i: int|
            0 <= i < old.len() ==> trailing_segment((#[trigger] new[i]).name@)
                == trailing_segment(old[i].name@),
        forall|j: int|
            0 <= j < gen_unmatched(gens, old).len() ==> trailing_segment(
                (#[trigger] new[old.len() + j]).name@,
            ) == step_suffix(gen_unmatched(gens, old)[j]),
{
    let um = gen_unmatched(gens, old);
    assert forall|i: int| 0 <= i < old.len() implies trailing_segment((#[trigger] new[i]).name@)
        == trailing_segment(old[i].name@) by {
        lemma_entry_suffix_cases(prefix, group, old, gens, new, i);
        let suf_i = trailing_segment(old[i].name@);
        let k = first_gen_matching(gens, suf_i);
        lemma_first_gen_matching(gens, suf_i);
        if k >= 0 {
            assert(step_suffix(gens[k]) == suf_i);
        }
    }
    assert forall|j: int| 0 <= j < um.len() implies trailing_segment(
        (#[trigger] new[old.len() + j]).name@,
    ) == step_suffix(um[j]) by {
        lemma_entry_suffix_cases(prefix, group, old, gens, new, old.len() + j);
    }
}

/// Law: reconciling is idempotent up to the version counter. Merging the
/// same generated scale a second time leaves every entry's identity token,
/// qualified name and hex value as they were (the hex is overwritten with
/// the same value), appends nothing, and advances the version counter of
/// exactly the entries the scale addresses by one more.
pub proof fn lemma_reconcile_idempotent(
    prefix: Seq<char>,
    group: Seq<char>,
    old: Seq<PaletteEntry>,
    gens: Seq<GeneratedColor>,
    mid: Seq<PaletteEntry>,
    new: Seq<PaletteEntry>,
)
    requires
        merged_scale(prefix, group, old, gens, mid),
        merged_scale(prefix, group, mid, gens, new),
        distinct_suffixes(gens),
        forall|a: int, b: int|
            0 <= a < b < old.len() ==> trailing_segment((#[trigger] old[a]).name@)
                != trailing_segment((#[trigger] old[b]).name@),
    ensures
        new.len() == mid.len(),
        forall|i: int|
            0 <= i < mid.len() ==> (#[trigger] new[i]).id == mid[i].id && new[i].name@
                == mid[i].name@ && new[i].hex@ == mid[i].hex@ && (new[i].version == mid[i].version
                + 1 || new[i] == mid[i]),
{
    let um = gen_unmatched(gens, old);
    let um1 = gen_unmatched(gens, mid);
    lemma_merged_scale_suffixes(prefix, group, old, gens, mid);
    // Every generated suffix is present in `mid`, so the second merge
    // appends nothing.
    assert forall|k: int| 0 <= k < gens.len() implies !(index_of_suffix(
        mid,
        step_suffix(#[trigger] gens[k]),
    ) < 0) by {
        let s = step_suffix(gens[k]);
        let idx0 = index_of_suffix(old, s);
        lemma_index_of_suffix(old, s);
        lemma_index_of_suffix(mid, s);
        if idx0 >= 0 {
            assert(trailing_segment(mid[idx0].name@) == s);
        } else {
            lemma_unmatched_member(gens, old, k);
            let j = choose|j: int|
                0 <= j < gen_unmatched(gens, old).len() && #[trigger] gen_unmatched(
                    gens,
                    old,
                )[j] == gens[k];
            assert(trailing_segment(mid[old.len() + j].name@) == step_suffix(um[j]));
        }
    }
    lemma_filter_empty(
        gens,
        |g: GeneratedColor| index_of_suffix(mid, step_suffix(g)) < 0,
    );
    assert(um1.len() == 0);
    assert(new.len() == mid.len());
    assert forall|i: int| 0 <= i < mid.len() implies (#[trigger] new[i]).id == mid[i].id
        && new[i].name@ == mid[i].name@ && new[i].hex@ == mid[i].hex@ && (new[i].version
        == mid[i].version + 1 || new[i] == mid[i]) by {
        let suf_m = trailing_segment(mid[i].name@);
        let k1 = first_gen_matching(gens, suf_m);
        lemma_first_gen_matching(gens, suf_m);
        if i < old.len() {
            let suf_i = trailing_segment(old[i].name@);
            assert(suf_m == suf_i);
            let k = first_gen_matching(gens, suf_i);
            if k >= 0 {
                // Addressed entry: updated again with the same name and hex.
                assert(merged_update(
                    mid[i],
                    old[i],
                    step_qualified(prefix, group, gens[k]),
                    gens[k].hex@,
                ));
                assert(k1 == k);
                assert(merged_update(
                    new[i],
                    mid[i],
                    step_qualified(prefix, group, gens[k]),
                    gens[k].hex@,
                ));
            } else {
                assert(mid[i] == old[i]);
                assert(k1 == -1);
                assert(new[i] == mid[i]);
            }
        } else {
            // Appended entry: addressed by the generated color it came from.
            let j = i - old.len();
            lemma_entry_suffix_cases(prefix, group, old, gens, mid, i);
            assert(merged_fresh(mid[i], step_qualified(prefix, group, um[j]), um[j].hex@));
            assert(suf_m == step_suffix(um[j]));
            lemma_unmatched_from(gens, old, j);
            let k0 = choose|k: int|
                0 <= k < gens.len() && gen_unmatched(gens, old)[j] == #[trigger] gens[k];
            assert(step_suffix(gens[k0]) == suf_m);
            assert(k1 >= 0 && k1 <= k0);
            assert(k1 == k0) by {
                if k1 < k0 {
                    assert(step_suffix(gens[k1]) != step_suffix(gens[k0]));
                }
            }
            assert(gens[k1] == um[j]);
            assert(merged_update(
                new[i],
                mid[i],
                step_qualified(prefix, group, gens[k1]),
                gens[k1].hex@,
            ));
        }
    }
}

/// Law: matching is by stop suffix alone. An existing entry whose trailing
/// `<stem>.<stop>` suffix matches a generated color keeps its identity
/// token and advances its version by exactly one even when its full
/// qualified name differs (a renamed group); the name is rewritten to the
/// new qualified name and the hex to the generated value.
pub proof fn lemma_rename_preserves_identity(
    prefix: Seq<char>,
    group: Seq<char>,
    old: Seq<PaletteEntry>,
    gens: Seq<GeneratedColor>,
    new: Seq<PaletteEntry>,
    i: int,
    k: int,
)
    requires
        merged_scale(prefix, group, old, gens, new),
        distinct_suffixes(gens),
        0 <= i < old.len(),
        0 <= k < gens.len(),
        step_suffix(gens[k]) == trailing_segment(old[i].name@),
    ensures
        new[i].id == old[i].id,
        new[i].version == old[i].version + 1,
        new[i].name@ == step_qualified(prefix, group, gens[k]),
        new[i].hex@ == gens[k].hex@,
{
    let suf_i = trailing_segment(old[i].name@);
    lemma_first_gen_matching(gens, suf_i);
    let k0 = first_gen_matching(gens, suf_i);
    assert(k0 >= 0 && k0 <= k);
    assert(k0 == k) by {
        if k0 < k {
            assert(step_suffix(gens[k0]) != step_suffix(gens[k]));
        }
    }
    assert(merged_update(new[i], old[i], step_qualified(prefix, group, gens[k]), gens[k].hex@));
}


/// The index of the first group with the given name, or `-1`.
pub open spec fn index_of_group(groups: Seq<PaletteGroup>, name: Seq<char>) -> int
    decreases groups.len(),
{
    if groups.len() == 0 {
        -1
    } else if groups[0].name@ == name {
        0
    } else {
        let r = index_of_group(groups.drop_first(), name);
        if r < 0 {
            -1
        } else {
            r + 1
        }
    }
}

pub proof fn lemma_index_of_group(groups: Seq<PaletteGroup>, name: Seq<char>)
    ensures
        -1 <= index_of_group(groups, name) < groups.len(),
        index_of_group(groups, name) >= 0 ==> groups[index_of_group(groups, name)].name@ == name,
        forall|i: int|
            0 <= i < groups.len() && (#[trigger] groups[i]).name@ == name ==> index_of_group(
                groups,
                name,
            ) >= 0 && index_of_group(groups, name) <= i,
    decreases groups.len(),
{
    if groups.len() > 0 && groups[0].name@ != name {
        lemma_index_of_group(groups.drop_first(), name);
        assert forall|i: int|
            0 <= i < groups.len() && (#[trigger] groups[i]).name@ == name implies index_of_group(
            groups,
            name,
        ) >= 0 && index_of_group(groups, name) <= i by {
            assert(i >= 1);
            assert(groups.drop_first()[i - 1] == groups[i]);
        }
    }
}

/// The index of the group named `name`, if the palette holds one.
pub fn find_group(palette: &Palette, name: &str) -> (r: Option<usize>)
    ensures
        r is Some <==> index_of_group(palette.groups@, name@) >= 0,
        r is Some ==> r->0 == index_of_group(palette.groups@, name@),
{
    proof {
        lemma_index_of_group(palette.groups@, name@);
    }
    let n = palette.groups.len();
    let mut i: usize = 0;
    while i < n
        invariant
            0 <= i <= n,
            n == palette.groups@.len(),
            forall|j: int| 0 <= j < i ==> (#[trigger] palette.groups@[j]).name@ != name@,
        decreases n - i,
    {
        if str_eq(palette.groups[i].name.as_str(), name) {
            proof {
                lemma_index_of_group(palette.groups@, name@);
            }
            return Some(i);
        }
        i += 1;
    }
    proof {
        lemma_index_of_group(palette.groups@, name@);
    }
    None
}

/// A mutable borrow of one group of the palette.
pub fn group_at_mut(groups: &mut Vec<PaletteGroup>, i: usize) -> (g: &mut PaletteGroup)
    requires
        i < old(groups).len(),
    ensures
        *g == old(groups)@[i as int],
        final(groups)@ == old(groups)@.update(i as int, *final(g)),
{
    &mut groups[i]
}

/// The index of the group named `name`, appending a fresh empty group of
/// that name when the palette holds none.
pub fn ensure_group(palette: &mut Palette, name: &str) -> (i: usize)
    requires
        old(palette).wf(),
    ensures
        final(palette).wf(),
        i < final(palette).groups@.len(),
        final(palette).groups@[i as int].name@ == name@,
        ({
            let idx = index_of_group(old(palette).groups@, name@);
            if idx >= 0 {
                i == idx && *final(palette) == *old(palette)
            } else {
                i == old(palette).groups@.len() && final(palette).groups@.len() == old(palette).groups@.len() + 1 && (forall|j: int|
                    0 <= j < old(palette).groups@.len() ==> final(palette).groups@[j] == old(palette).groups@[j]) && final(palette).groups@.last().entries@.len() == 0
            }
        }),
{
    proof {
        lemma_index_of_group(old(palette).groups@, name@);
    }
    match find_group(palette, name) {
        Some(i) => i,
        None => {
            let i = palette.groups.len();
            palette.groups.push(PaletteGroup { name: name.to_owned(), entries: Vec::new() });
            proof {
                let g1 = palette.groups@;
                let g0 = old(palette).groups@;
                assert forall|a: int, b: int| 0 <= a < b < g1.len() implies (
                #[trigger] g1[a]).name@ != (#[trigger] g1[b]).name@ by {
                    if b == g1.len() - 1 {
                        assert(g1[a] == g0[a]);
                    } else {
                        assert(g1[a] == g0[a] && g1[b] == g0[b]);
                    }
                }
            }
            i
        },
    }
}

/// Empty the entries of one group, for the full-replace merge policy: the
/// following reconciliation then inserts every stop afresh, with new
/// identities.
pub fn clear_group(palette: &mut Palette, i: usize)
    requires
        old(palette).wf(),
        i < old(palette).groups@.len(),
    ensures
        final(palette).wf(),
        final(palette).groups@.len() == old(palette).groups@.len(),
        forall|j: int|
            0 <= j < old(palette).groups@.len() && j != i ==> final(palette).groups@[j] == old(palette).groups@[j],
        final(palette).groups@[i as int].name == old(palette).groups@[i as int].name,
        final(palette).groups@[i as int].entries@.len() == 0,
{
    let g = group_at_mut(&mut palette.groups, i);
    g.entries.truncate(0);
    proof {
        assert(final(g).entries@ =~= Seq::<PaletteEntry>::empty());
    }
}

/// The index of the first entry whose name has the given trailing segment.
pub fn find_entry_by_suffix(entries: &Vec<PaletteEntry>, suffix: &str) -> (r: Option<usize>)
    ensures
        r is Some <==> index_of_suffix(entries@, suffix@) >= 0,
        r is Some ==> r->0 == index_of_suffix(entries@, suffix@),
{
    proof {
        lemma_index_of_suffix(entries@, suffix@);
    }
    let n = entries.len();
    let mut i: usize = 0;
    while i < n
        invariant
            0 <= i <= n,
            n == entries@.len(),
            forall|j: int|
                0 <= j < i ==> trailing_segment((#[trigger] entries@[j]).name@) != suffix@,
        decreases n - i,
    {
        let entry_suffix = trailing_segment_of(entries[i].name.as_str());
        if str_eq(entry_suffix.as_str(), suffix) {
            proof {
                lemma_index_of_suffix(entries@, suffix@);
            }
            return Some(i);
        }
        i += 1;
    }
    proof {
        lemma_index_of_suffix(entries@, suffix@);
    }
    None
}

/// Resolve a link request: copy the hex of the referenced group's entry at
/// the request's anchor stop into a single entry under the requesting name.
///
/// The source is the palette group named by the request's value; inside it,
/// the entry addressed by the suffix `<value-stem>.<anchor_stop>`. When
/// either is absent the palette is left untouched and the merge fails with
/// `ReferenceNotFound`: a link to a missing color is a hard error, never
/// silently skipped. On success the entry `<prefix> / <name>` in the group
/// keyed by the first segment of the request name is updated (stable id,
/// version advanced by one) or freshly inserted at version 1.
pub fn link_by_name(palette: &mut Palette, req: &BaseColorRequest, prefix: &str) -> (r: Result<
    (),
    UpdateError,
>)
    requires
        old(palette).wf(),
        forall|gi: int, i: int|
            0 <= gi < old(palette).groups@.len() && 0 <= i < (#[trigger] old(palette).groups@[gi]).entries@.len() ==> (#[trigger] old(palette).groups@[gi].entries@[i]).version < u32::MAX,
    ensures
        final(palette).wf(),
        ({
            let groups = old(palette).groups@;
            let src = index_of_group(groups, req.value@);
            let suf = gen_suffix(trailing_segment(req.value@), req.anchor_stop as nat);
            let found = src >= 0 && index_of_suffix(groups[src].entries@, suf) >= 0;
            &&& (r is Ok <==> found)
            &&& (r is Err ==> r->Err_0 == UpdateError::ReferenceNotFound && *final(palette) == *old(palette))
        }),
        r is Ok ==> ({
            let groups = old(palette).groups@;
            let src = index_of_group(groups, req.value@);
            let suf = gen_suffix(trailing_segment(req.value@), req.anchor_stop as nat);
            let hex = groups[src].entries@[index_of_suffix(groups[src].entries@, suf)].hex@;
            let gkey = first_segment(req.name@);
            let tgt = index_of_group(groups, gkey);
            let lname = link_name(prefix@, req.name@);
            if tgt >= 0 {
                final(palette).groups@.len() == groups.len() && (forall|j: int|
                    0 <= j < groups.len() && j != tgt ==> final(palette).groups@[j] == groups[j])
                    && final(palette).groups@[tgt].name == groups[tgt].name && merge_one(
                    groups[tgt].entries@,
                    final(palette).groups@[tgt].entries@,
                    lname,
                    hex,
                )
            } else {
                final(palette).groups@.len() == groups.len() + 1 && (forall|j: int|
                    0 <= j < groups.len() ==> final(palette).groups@[j] == groups[j]) && final(palette).groups@.last().name@ == gkey && merge_one(
                    Seq::<PaletteEntry>::empty(),
                    final(palette).groups@.last().entries@,
                    lname,
                    hex,
                )
            }
        }),
{
    let ghost groups0 = old(palette).groups@;
    let src = match find_group(palette, req.value.as_str()) {
        Some(src) => src,
        None => {
            return Err(UpdateError::ReferenceNotFound);
        },
    };
    proof {
        lemma_index_of_group(groups0, req.value@);
    }
    let stem = trailing_segment_of(req.value.as_str());
    let suffix = make_suffix(stem.as_str(), req.anchor_stop);
    let ghost suf = gen_suffix(trailing_segment(req.value@), req.anchor_stop as nat);
    proof {
        lemma_index_of_suffix(palette.groups@[src as int].entries@, suf);
    }
    let ei = match find_entry_by_suffix(&palette.groups[src].entries, suffix.as_str()) {
        Some(ei) => ei,
        None => {
            return Err(UpdateError::ReferenceNotFound);
        },
    };
    proof {
        lemma_index_of_suffix(groups0[src as int].entries@, suf);
    }
    let hex = palette.groups[src].entries[ei].hex.clone();
    assert(hex@ == groups0[src as int].entries@[index_of_suffix(
        groups0[src as int].entries@,
        suf,
    )].hex@);
    let gkey = first_segment_of(req.name.as_str());
    let lname = make_link_name(prefix, req.name.as_str());
    proof {
        lemma_index_of_group(groups0, gkey@);
    }
    let gi = ensure_group(palette, gkey.as_str());
    let g = group_at_mut(&mut palette.groups, gi);
    update_by_name(g, lname, hex);
    proof {
        let g1 = palette.groups@;
        assert forall|a: int, b: int| 0 <= a < b < g1.len() implies (#[trigger] g1[a]).name@ != (
        #[trigger] g1[b]).name@ by {}
    }
    Ok(())
}


/// Every generated color of a merged scale lands in the result: as an
/// update of the entry its suffix addressed, or as a fresh appended entry.
pub proof fn lemma_merged_scale_covers(
    prefix: Seq<char>,
    group: Seq<char>,
    old: Seq<PaletteEntry>,
    gens: Seq<GeneratedColor>,
    new: Seq<PaletteEntry>,
    k: int,
)
    requires
        merged_scale(prefix, group, old, gens, new),
        distinct_suffixes(gens),
        0 <= k < gens.len(),
    ensures
        exists|e: int|
            0 <= e < new.len() && (#[trigger] new[e]).name@ == step_qualified(
                prefix,
                group,
                gens[k],
            ) && new[e].hex@ == gens[k].hex@,
{
    let s_k = step_suffix(gens[k]);
    let idx = index_of_suffix(old, s_k);
    lemma_index_of_suffix(old, s_k);
    let um = gen_unmatched(gens, old);
    if idx >= 0 {
        let suf_i = trailing_segment(old[idx].name@);
        lemma_first_gen_matching(gens, suf_i);
        let k0 = first_gen_matching(gens, suf_i);
        assert(k0 >= 0 && k0 <= k);
        assert(k0 == k) by {
            if k0 < k {
                assert(step_suffix(gens[k0]) != step_suffix(gens[k]));
            }
        }
        assert(merged_update(new[idx], old[idx], step_qualified(prefix, group, gens[k]),
            gens[k].hex@));
    } else {
        lemma_unmatched_member(gens, old, k);
        let j = choose|j: int|
            0 <= j < gen_unmatched(gens, old).len() && #[trigger] gen_unmatched(gens, old)[j]
                == gens[k];
        assert(merged_fresh(new[old.len() + j], step_qualified(prefix, group, um[j]), um[j].hex@));
        assert(new[old.len() + j].name@ == step_qualified(prefix, group, gens[k]));
    }
}

} // verus!
