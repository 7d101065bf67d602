//! The linker: binds each label reference in a code buffer to the offset
//! at which the label is marked.

use vstd::prelude::*;
use crate::command::le_bytes;
use crate::command::{Command, CommandView, Runtime};
use crate::emit::{
    code_of, copy_label, def_views, defs_of, emit, emitted, reloc_site, reloc_views, relocs_of,
    target_of, Relocation, RelocView,
};
use crate::parser::{parse_spec, views};
use crate::serialize::is_source;
use crate::label::{copy_bits, Label, LabelDef, LabelTable, LabelView};

verus! {

/// Why a program cannot be linked.
#[derive(Clone, Debug, PartialEq, Eq)]
pub enum LinkError {
    /// A label is referenced but marked nowhere.
    UnresolvedLabel(Vec<bool>),
    /// A label is marked twice.
    DuplicateLabel(Vec<bool>),
    /// The code is too long for 32-bit displacements.
    CodeTooLarge,
}

/// The mathematical model of a [`LinkError`].
pub ghost enum LinkErrorView {
    UnresolvedLabel(Seq<bool>),
    DuplicateLabel(Seq<bool>),
    CodeTooLarge,
}

impl View for LinkError {
    type V = LinkErrorView;

    open spec fn view(&self) -> LinkErrorView {
        match self {
            LinkError::UnresolvedLabel(n) => LinkErrorView::UnresolvedLabel(n@),
            LinkError::DuplicateLabel(n) => LinkErrorView::DuplicateLabel(n@),
            LinkError::CodeTooLarge => LinkErrorView::CodeTooLarge,
        }
    }
}

/// The table that definitions without repeated names describe.
pub open spec fn defs_table(ds: Seq<(Seq<bool>, usize)>) -> Map<Seq<bool>, usize>
    decreases ds.len(),
{
    if ds.len() == 0 {
        Map::empty()
    } else {
        defs_table(ds.drop_last()).insert(ds.last().0, ds.last().1)
    }
}

/// The first definition, from index `j` on, whose name is defined before it.
pub open spec fn duplicate_from(ds: Seq<(Seq<bool>, usize)>, j: int) -> Option<int>
    decreases ds.len() - j,
{
    if j < 0 || j >= ds.len() {
        None
    } else if exists|i: int| 0 <= i < j && #[trigger] ds[i].0 == ds[j].0 {
        Some(j)
    } else {
        duplicate_from(ds, j + 1)
    }
}

/// Where a relocation's label points under table `m`, if anywhere.
pub open spec fn target(r: RelocView, m: Map<Seq<bool>, usize>) -> Option<usize> {
    match r.label {
        LabelView::Name(n) => if m.contains_key(n) {
            Some(m[n])
        } else {
            None
        },
        LabelView::Translated(a) => Some(a),
    }
}

/// The first relocation, from index `i` on, whose label `m` cannot resolve.
pub open spec fn unresolved_from(rs: Seq<RelocView>, m: Map<Seq<bool>, usize>, i: int) -> Option<
    int,
>
    decreases rs.len() - i,
{
    if i < 0 || i >= rs.len() {
        None
    } else if target(rs[i], m) is None {
        Some(i)
    } else {
        unresolved_from(rs, m, i + 1)
    }
}

/// The four bytes of the displacement from the end of the field at `site`
/// to `target`.
pub open spec fn disp_bytes(target: usize, site: usize) -> Seq<u8> {
    le_bytes(
        (#[verifier::truncate] ((#[verifier::truncate] ((target - (site + 4)) as i32)) as u32)) as nat,
        4,
    )
}

/// `code` with the four bytes at `site` replaced by `b`.
pub open spec fn write4(code: Seq<u8>, site: int, b: Seq<u8>) -> Seq<u8> {
    Seq::new(code.len(), |p: int| if site <= p < site + 4 { b[p - site] } else { code[p] })
}

/// `code` with every relocation's displacement filled in, in order.
pub open spec fn patch_all(code: Seq<u8>, rs: Seq<RelocView>, m: Map<Seq<bool>, usize>) -> Seq<u8>
    decreases rs.len(),
{
    if rs.len() == 0 {
        code
    } else {
        let r = rs[0];
        patch_all(
            write4(code, r.offset as int, disp_bytes(target(r, m)->0, r.offset)),
            rs.drop_first(),
            m,
        )
    }
}

/// Linking: a label marked twice fails first (the first repeated one), then
/// a reference that no mark resolves (the first one); else every
/// displacement is filled in.
pub open spec fn link_spec(code: Seq<u8>, rs: Seq<RelocView>, ds: Seq<(Seq<bool>, usize)>) -> Result<
    Seq<u8>,
    LinkErrorView,
> {
    match duplicate_from(ds, 0) {
        Some(j) => Err(LinkErrorView::DuplicateLabel(ds[j].0)),
        None => match unresolved_from(rs, defs_table(ds), 0) {
            Some(i) => Err(LinkErrorView::UnresolvedLabel(rs[i].label->Name_0)),
            None => Ok(patch_all(code, rs, defs_table(ds))),
        },
    }
}

/// What the linker needs of its input: displacements fit in 32 bits, and
/// every patch site and target lies inside the code.
pub open spec fn linkable(len: int, rs: Seq<RelocView>, ds: Seq<(Seq<bool>, usize)>) -> bool {
    &&& len <= i32::MAX
    &&& forall|i: int| 0 <= i < rs.len() ==> #[trigger] rs[i].offset + 4 <= len
    &&& forall|i: int|
        0 <= i < rs.len() && rs[i].label is Translated ==> #[trigger] rs[i].label->Translated_0
            <= len
    &&& forall|i: int| 0 <= i < ds.len() ==> #[trigger] ds[i].1 <= len
}

proof fn lemma_defs_table_dom(ds: Seq<(Seq<bool>, usize)>)
    ensures
        forall|n: Seq<bool>|
            defs_table(ds).contains_key(n) ==> exists|i: int| 0 <= i < ds.len() && #[trigger] ds[i].0 == n,
        forall|i: int| 0 <= i < ds.len() ==> defs_table(ds).contains_key(#[trigger] ds[i].0),
    decreases ds.len(),
{
    if ds.len() > 0 {
        let init = ds.drop_last();
        lemma_defs_table_dom(init);
        assert forall|n: Seq<bool>| defs_table(ds).contains_key(n) implies exists|i: int|
            0 <= i < ds.len() && #[trigger] ds[i].0 == n by {
            if n != ds.last().0 {
                assert(defs_table(init).contains_key(n));
                let i = choose|i: int| 0 <= i < init.len() && #[trigger] init[i].0 == n;
                assert(init[i] == ds[i]);
                assert(ds[i].0 == n);
            } else {
                assert(ds[ds.len() - 1].0 == n);
            }
        }
        assert forall|i: int| 0 <= i < ds.len() implies defs_table(ds).contains_key(
            #[trigger] ds[i].0,
        ) by {
            if i < ds.len() - 1 {
                assert(init[i].0 == ds[i].0);
            }
        }
    }
}

/// Writes the displacement from the field at `site` to `target`.
fn write_disp(code: &mut Vec<u8>, site: usize, target: usize)
    requires
        old(code)@.len() <= i32::MAX,
        site + 4 <= old(code)@.len(),
        target <= old(code)@.len(),
    ensures
        final(code)@ == write4(old(code)@, site as int, disp_bytes(target, site)),
{
    let d: i64 = target as i64 - (site as i64 + 4);
    let mut x: u64 = (#[verifier::truncate] (#[verifier::truncate] (d as i32)) as u32) as u64;
    let ghost full = disp_bytes(target, site);
    let mut k: usize = 0;
    proof {
        crate::emit::lemma_le_bytes_len(x as nat, 4);
    }
    while k < 4
        invariant
            k <= 4,
            old(code)@.len() <= i32::MAX,
            site + 4 <= code@.len(),
            code@.len() == old(code)@.len(),
            full.len() == 4,
            le_bytes(x as nat, (4 - k) as nat) == full.subrange(k as int, 4),
            forall|p: int|
                0 <= p < code@.len() ==> code@[p] == (if site <= p < site + k {
                    full[p - site]
                } else {
                    old(code)@[p]
                }),
        decreases 4 - k,
    {
        assert(full.subrange(k as int, 4)[0] == full[k as int]);
        assert(full.subrange(k as int + 1, 4) =~= full.subrange(k as int, 4).subrange(1, 4 - k));
        assert(le_bytes(x as nat, (4 - k) as nat) == seq![(x % 256) as u8] + le_bytes(
            (x / 256) as nat,
            (4 - k - 1) as nat,
        ));
        proof {
            crate::emit::lemma_le_bytes_len((x / 256) as nat, (4 - k - 1) as nat);
        }
        assert(le_bytes(x as nat, (4 - k) as nat).subrange(1, 4 - k) =~= le_bytes(
            (x / 256) as nat,
            (4 - k - 1) as nat,
        ));
        code.set(site + k, (x % 256) as u8);
        x = x / 256;
        k = k + 1;
    }
    assert(code@ =~= write4(old(code)@, site as int, disp_bytes(target, site)));
}

/// Links `code`: binds every relocation to its label's definition and
/// writes the displacements. On failure `code` is left as it was. On
/// success the table of definitions is returned.
pub fn link(code: &mut Vec<u8>, relocations: &Vec<Relocation>, definitions: &Vec<LabelDef>) -> (r:
    Result<LabelTable, LinkError>)
    requires
        linkable(
            old(code)@.len() as int,
            reloc_views(relocations@),
            def_views(definitions@),
        ),
    ensures
        match r {
            Ok(table) => link_spec(
                old(code)@,
                reloc_views(relocations@),
                def_views(definitions@),
            ) == Ok::<Seq<u8>, LinkErrorView>(final(code)@) && table.wf() && table@
                == defs_table(def_views(definitions@)),
            Err(e) => link_spec(old(code)@, reloc_views(relocations@), def_views(definitions@))
                == Err::<Seq<u8>, LinkErrorView>(e@) && final(code)@ == old(code)@,
        },
{
    let ghost ds = def_views(definitions@);
    let ghost rs = reloc_views(relocations@);
    let mut table = LabelTable::new();
    let mut j: usize = 0;
    while j < definitions.len()
        invariant
            j <= ds.len(),
            ds == def_views(definitions@),
            table.wf(),
            table@ == defs_table(ds.subrange(0, j as int)),
            forall|a: int, b: int| 0 <= a < b < j ==> ds[a].0 != ds[b].0,
            duplicate_from(ds, 0) == duplicate_from(ds, j as int),
        decreases ds.len() - j,
    {
        let ghost pre = ds.subrange(0, j as int);
        proof {
            lemma_defs_table_dom(pre);
            assert(ds.subrange(0, j as int + 1).drop_last() =~= pre);
        }
        let d = &definitions[j];
        match table.define(&d.name, d.offset) {
            Ok(()) => {
                assert forall|a: int, b: int| 0 <= a < b < j + 1 implies ds[a].0 != ds[b].0 by {
                    if b == j && ds[a].0 == ds[b].0 {
                        assert(pre[a].0 == ds[a].0);
                    }
                }
                assert(!exists|i: int| 0 <= i < j && #[trigger] ds[i].0 == ds[j as int].0) by {
                    if exists|i: int| 0 <= i < j && #[trigger] ds[i].0 == ds[j as int].0 {
                        let i = choose|i: int| 0 <= i < j && #[trigger] ds[i].0 == ds[j as int].0;
                        assert(pre[i].0 == ds[i].0);
                    }
                }
            },
            Err(()) => {
                let name = copy_bits(&d.name);
                assert(exists|i: int| 0 <= i < j && #[trigger] ds[i].0 == ds[j as int].0) by {
                    let i = choose|i: int| 0 <= i < pre.len() && #[trigger] pre[i].0 == ds[j as int].0;
                    assert(ds[i].0 == pre[i].0);
                }
                return Err(LinkError::DuplicateLabel(name));
            },
        }
        j = j + 1;
    }
    assert(ds.subrange(0, ds.len() as int) =~= ds);
    let ghost m = defs_table(ds);
    let mut targets: Vec<usize> = Vec::new();
    let mut i: usize = 0;
    while i < relocations.len()
        invariant
            i <= rs.len(),
            rs == reloc_views(relocations@),
            ds == def_views(definitions@),
            m == defs_table(ds),
            table.wf(),
            table@ == m,
            duplicate_from(ds, 0) is None,
            targets@.len() == i,
            forall|k: int| 0 <= k < i ==> target(rs[k], m) == Some(#[trigger] targets@[k]),
            unresolved_from(rs, m, 0) == unresolved_from(rs, m, i as int),
        decreases rs.len() - i,
    {
        match copy_label(&relocations[i].label).replace(&table) {
            Some(Label::Translated(a)) => {
                targets.push(a);
            },
            _ => {
                let name = match &relocations[i].label {
                    Label::Name(n) => copy_bits(n),
                    Label::Translated(_) => Vec::new(),
                };
                return Err(LinkError::UnresolvedLabel(name));
            },
        }
        i = i + 1;
    }
    proof {
        lemma_defs_table_dom(ds);
    }
    let ghost start = code@;
    let mut i: usize = 0;
    assert(rs.subrange(0, rs.len() as int) =~= rs);
    while i < relocations.len()
        invariant
            i <= rs.len(),
            rs == reloc_views(relocations@),
            ds == def_views(definitions@),
            m == defs_table(ds),
            targets@.len() == rs.len(),
            forall|k: int| 0 <= k < rs.len() ==> target(rs[k], m) == Some(#[trigger] targets@[k]),
            linkable(start.len() as int, rs, ds),
            duplicate_from(ds, 0) is None,
            code@.len() == start.len(),
            patch_all(start, rs, m) == patch_all(code@, rs.subrange(i as int, rs.len() as int), m),
        decreases rs.len() - i,
    {
        let site = relocations[i].offset;
        let t = targets[i];
        proof {
            let rest = rs.subrange(i as int, rs.len() as int);
            assert(rest.drop_first() =~= rs.subrange(i as int + 1, rs.len() as int));
            assert(rest[0] == rs[i as int]);
            assert(rs[i as int].offset + 4 <= start.len());
            lemma_defs_table_dom(ds);
            match rs[i as int].label {
                LabelView::Name(n) => {
                    assert(m.contains_key(n));
                    let w = choose|w: int| 0 <= w < ds.len() && #[trigger] ds[w].0 == n;
                    assert(ds[w].1 <= start.len());
                    assert(m[n] == ds[w].1) by {
                        lemma_no_duplicate(ds, 0);
                        lemma_table_value(ds, w);
                    }
                },
                LabelView::Translated(a) => {},
            }
        }
        write_disp(code, site, t);
        i = i + 1;
    }
    Ok(table)
}

proof fn lemma_no_duplicate(ds: Seq<(Seq<bool>, usize)>, j: int)
    requires
        0 <= j,
        duplicate_from(ds, j) is None,
    ensures
        forall|a: int, b: int| 0 <= a < b < ds.len() && j <= b ==> #[trigger] ds[a].0 != #[trigger] ds[b].0,
    decreases ds.len() - j,
{
    if j < ds.len() {
        lemma_no_duplicate(ds, j + 1);
        assert forall|a: int, b: int| 0 <= a < b < ds.len() && j <= b implies #[trigger] ds[a].0
            != #[trigger] ds[b].0 by {
            if b == j && ds[a].0 == ds[b].0 {
                assert(exists|i: int| 0 <= i < j && #[trigger] ds[i].0 == ds[j].0);
            }
        }
    }
}

proof fn lemma_table_value(ds: Seq<(Seq<bool>, usize)>, w: int)
    requires
        0 <= w < ds.len(),
        forall|a: int, b: int| 0 <= a < b < ds.len() ==> #[trigger] ds[a].0 != #[trigger] ds[b].0,
    ensures
        defs_table(ds)[ds[w].0] == ds[w].1,
    decreases ds.len(),
{
    if w < ds.len() - 1 {
        let init = ds.drop_last();
        assert(ds[w].0 != ds[ds.len() - 1].0);
        assert forall|a: int, b: int| 0 <= a < b < init.len() implies #[trigger] init[a].0
            != #[trigger] init[b].0 by {
            assert(init[a] == ds[a] && init[b] == ds[b]);
        }
        lemma_table_value(init, w);
        assert(init[w] == ds[w]);
    }
}

/// Whether position `p` lies in one of the four-byte fields of `rs`.
pub open spec fn in_sites(rs: Seq<RelocView>, p: int) -> bool
    decreases rs.len(),
{
    rs.len() > 0 && ((rs[0].offset <= p < rs[0].offset + 4) || in_sites(rs.drop_first(), p))
}

proof fn lemma_patch_outside(code: Seq<u8>, rs: Seq<RelocView>, m: Map<Seq<bool>, usize>)
    ensures
        patch_all(code, rs, m).len() == code.len(),
        forall|p: int|
            0 <= p < code.len() && !in_sites(rs, p) ==> #[trigger] patch_all(code, rs, m)[p]
                == code[p],
    decreases rs.len(),
{
    if rs.len() > 0 {
        let r = rs[0];
        let w = write4(code, r.offset as int, disp_bytes(target(r, m)->0, r.offset));
        lemma_patch_outside(w, rs.drop_first(), m);
        assert forall|p: int| 0 <= p < code.len() && !in_sites(rs, p) implies #[trigger] patch_all(
            code,
            rs,
            m,
        )[p] == code[p] by {
            assert(!in_sites(rs.drop_first(), p));
            assert(patch_all(w, rs.drop_first(), m)[p] == w[p]);
        }
    }
}

proof fn lemma_patch_agree(c1: Seq<u8>, c2: Seq<u8>, rs: Seq<RelocView>, m: Map<Seq<bool>, usize>)
    requires
        c1.len() == c2.len(),
        forall|p: int| 0 <= p < c1.len() && !in_sites(rs, p) ==> #[trigger] c1[p] == c2[p],
    ensures
        patch_all(c1, rs, m) == patch_all(c2, rs, m),
    decreases rs.len(),
{
    if rs.len() == 0 {
        assert(c1 =~= c2);
    } else {
        let r = rs[0];
        let b = disp_bytes(target(r, m)->0, r.offset);
        let w1 = write4(c1, r.offset as int, b);
        let w2 = write4(c2, r.offset as int, b);
        assert forall|p: int| 0 <= p < w1.len() && !in_sites(rs.drop_first(), p) implies #[trigger] w1[p]
            == w2[p] by {
            if !(r.offset <= p < r.offset + 4) {
                assert(!in_sites(rs, p));
                assert(c1[p] == c2[p]);
            }
        }
        lemma_patch_agree(w1, w2, rs.drop_first(), m);
    }
}

/// Linking is idempotent: linking the linked code again, with the same
/// relocations and definitions, changes nothing.
pub proof fn lemma_link_idempotent(
    code: Seq<u8>,
    rs: Seq<RelocView>,
    ds: Seq<(Seq<bool>, usize)>,
)
    requires
        link_spec(code, rs, ds) is Ok,
    ensures
        link_spec(link_spec(code, rs, ds)->Ok_0, rs, ds) == link_spec(code, rs, ds),
{
    let m = defs_table(ds);
    let once = patch_all(code, rs, m);
    lemma_patch_outside(code, rs, m);
    lemma_patch_agree(once, code, rs, m);
}

/// No label is marked twice.
pub open spec fn marks_unique(cs: Seq<CommandView>) -> bool {
    forall|i: int, j: int|
        0 <= i < j < cs.len() && cs[i] is Mark && cs[j] is Mark ==> #[trigger] cs[i]->Mark_0
            != #[trigger] cs[j]->Mark_0
}

/// Every label that a control transfer names is marked.
pub open spec fn targets_marked(cs: Seq<CommandView>) -> bool {
    forall|i: int|
        0 <= i < cs.len() && #[trigger] reloc_site(cs[i]) is Some ==> exists|j: int|
            0 <= j < cs.len() && cs[j] == CommandView::Mark(target_of(cs[i]))
}

proof fn lemma_defs_from_marks(cs: Seq<CommandView>, rt: Runtime)
    ensures
        forall|k: int|
            0 <= k < defs_of(cs, rt).len() ==> exists|i: int|
                0 <= i < cs.len() && cs[i] == CommandView::Mark(
                    LabelView::Name(#[trigger] defs_of(cs, rt)[k].0),
                ),
    decreases cs.len(),
{
    if cs.len() > 0 {
        let init = cs.drop_last();
        lemma_defs_from_marks(init, rt);
        let ds = defs_of(cs, rt);
        assert forall|k: int| 0 <= k < ds.len() implies exists|i: int|
            0 <= i < cs.len() && cs[i] == CommandView::Mark(LabelView::Name(#[trigger] ds[k].0)) by {
            if k < defs_of(init, rt).len() {
                assert(ds[k] == defs_of(init, rt)[k]);
                let i = choose|i: int|
                    0 <= i < init.len() && init[i] == CommandView::Mark(
                        LabelView::Name(#[trigger] defs_of(init, rt)[k].0),
                    );
                assert(cs[i] == init[i]);
            } else {
                assert(cs[cs.len() - 1] == cs.last());
            }
        }
    }
}

proof fn lemma_marks_in_defs(cs: Seq<CommandView>, rt: Runtime, j: int, n: Seq<bool>)
    requires
        0 <= j < cs.len(),
        cs[j] == CommandView::Mark(LabelView::Name(n)),
    ensures
        exists|k: int| 0 <= k < defs_of(cs, rt).len() && #[trigger] defs_of(cs, rt)[k].0 == n,
    decreases cs.len(),
{
    let init = cs.drop_last();
    if j < cs.len() - 1 {
        assert(init[j] == cs[j]);
        lemma_marks_in_defs(init, rt, j, n);
        let k = choose|k: int| 0 <= k < defs_of(init, rt).len() && #[trigger] defs_of(init, rt)[k].0 == n;
        assert(defs_of(cs, rt)[k] == defs_of(init, rt)[k]);
    } else {
        assert(defs_of(cs, rt).last().0 == n);
    }
}

proof fn lemma_defs_distinct(cs: Seq<CommandView>, rt: Runtime)
    requires
        marks_unique(cs),
    ensures
        forall|a: int, b: int|
            0 <= a < b < defs_of(cs, rt).len() ==> #[trigger] defs_of(cs, rt)[a].0
                != #[trigger] defs_of(cs, rt)[b].0,
    decreases cs.len(),
{
    if cs.len() > 0 {
        let init = cs.drop_last();
        assert forall|i: int, j: int|
            0 <= i < j < init.len() && init[i] is Mark && init[j] is Mark implies #[trigger] init[i]->Mark_0
            != #[trigger] init[j]->Mark_0 by {
            assert(init[i] == cs[i] && init[j] == cs[j]);
        }
        lemma_defs_distinct(init, rt);
        lemma_defs_from_marks(init, rt);
        let ds = defs_of(cs, rt);
        let di = defs_of(init, rt);
        assert forall|a: int, b: int| 0 <= a < b < ds.len() implies #[trigger] ds[a].0
            != #[trigger] ds[b].0 by {
            assert(ds[a] == di[a]);
            if b < di.len() {
                assert(ds[b] == di[b]);
            } else if ds[a].0 == ds[b].0 {
                let i = choose|i: int|
                    0 <= i < init.len() && init[i] == CommandView::Mark(
                        LabelView::Name(#[trigger] di[a].0),
                    );
                assert(cs[i] == init[i]);
                assert(cs[i]->Mark_0 == cs[cs.len() - 1]->Mark_0);
            }
        }
    }
}

proof fn lemma_relocs_from(cs: Seq<CommandView>, rt: Runtime)
    ensures
        forall|k: int|
            0 <= k < relocs_of(cs, rt).len() ==> exists|i: int|
                0 <= i < cs.len() && reloc_site(cs[i]) is Some && #[trigger] relocs_of(
                    cs,
                    rt,
                )[k].label == target_of(cs[i]),
    decreases cs.len(),
{
    if cs.len() > 0 {
        let init = cs.drop_last();
        lemma_relocs_from(init, rt);
        let rs = relocs_of(cs, rt);
        let ri = relocs_of(init, rt);
        assert forall|k: int| 0 <= k < rs.len() implies exists|i: int|
            0 <= i < cs.len() && reloc_site(cs[i]) is Some && #[trigger] rs[k].label == target_of(
                cs[i],
            ) by {
            if k < ri.len() {
                assert(rs[k] == ri[k]);
                let i = choose|i: int|
                    0 <= i < init.len() && reloc_site(init[i]) is Some && #[trigger] ri[k].label
                        == target_of(init[i]);
                assert(cs[i] == init[i]);
            } else {
                assert(cs[cs.len() - 1] == cs.last());
            }
        }
    }
}

proof fn lemma_no_duplicate_from(ds: Seq<(Seq<bool>, usize)>, j: int)
    requires
        0 <= j,
        forall|a: int, b: int| 0 <= a < b < ds.len() ==> #[trigger] ds[a].0 != #[trigger] ds[b].0,
    ensures
        duplicate_from(ds, j) is None,
    decreases ds.len() - j,
{
    if j < ds.len() {
        lemma_no_duplicate_from(ds, j + 1);
    }
}

proof fn lemma_all_resolved(rs: Seq<RelocView>, m: Map<Seq<bool>, usize>, i: int)
    requires
        0 <= i,
        forall|k: int| 0 <= k < rs.len() ==> #[trigger] target(rs[k], m) is Some,
    ensures
        unresolved_from(rs, m, i) is None,
    decreases rs.len() - i,
{
    if i < rs.len() {
        lemma_all_resolved(rs, m, i + 1);
    }
}

/// Emission totality: a program that parses, in which no label is marked
/// twice and every label that a control transfer names is marked, emits
/// and links with every relocation resolved.
pub proof fn lemma_emission_total(s: Seq<u8>, rt: Runtime)
    requires
        parse_spec(s) is Ok,
        marks_unique(parse_spec(s)->Ok_0),
        targets_marked(parse_spec(s)->Ok_0),
    ensures
        link_spec(
            emitted(parse_spec(s)->Ok_0, rt),
            relocs_of(parse_spec(s)->Ok_0, rt),
            defs_of(parse_spec(s)->Ok_0, rt),
        ) is Ok,
{
    let cs = parse_spec(s)->Ok_0;
    let ds = defs_of(cs, rt);
    let rs = relocs_of(cs, rt);
    lemma_defs_distinct(cs, rt);
    lemma_no_duplicate_from(ds, 0);
    lemma_relocs_from(cs, rt);
    lemma_defs_table_dom(ds);
    assert forall|k: int| 0 <= k < rs.len() implies #[trigger] target(rs[k], defs_table(ds)) is Some by {
        let i = choose|i: int| 0 <= i < cs.len() && reloc_site(cs[i]) is Some && #[trigger] rs[k].label
            == target_of(cs[i]);
        let j = choose|j: int| 0 <= j < cs.len() && cs[j] == CommandView::Mark(target_of(cs[i]));
        match rs[k].label {
            LabelView::Name(n) => {
                lemma_marks_in_defs(cs, rt, j, n);
            },
            LabelView::Translated(_) => {},
        }
    }
    lemma_all_resolved(rs, defs_table(ds), 0);
}

proof fn lemma_emitted_linkable(cs: Seq<CommandView>, rt: Runtime)
    requires
        code_of(cs, rt).len() <= i32::MAX,
        forall|i: int| 0 <= i < cs.len() ==> is_source(#[trigger] cs[i]),
    ensures
        linkable(code_of(cs, rt).len() as int, relocs_of(cs, rt), defs_of(cs, rt)),
    decreases cs.len(),
{
    if cs.len() > 0 {
        let init = cs.drop_last();
        assert forall|i: int| 0 <= i < init.len() implies is_source(#[trigger] init[i]) by {
            assert(init[i] == cs[i]);
        }
        assert(is_source(cs[cs.len() - 1]));
        crate::emit::lemma_site_in_template(cs.last(), rt);
        lemma_emitted_linkable(init, rt);
        let rs = relocs_of(cs, rt);
        let ri = relocs_of(init, rt);
        let ds = defs_of(cs, rt);
        let di = defs_of(init, rt);
        assert forall|i: int| 0 <= i < rs.len() implies #[trigger] rs[i].offset + 4 <= code_of(
            cs,
            rt,
        ).len() by {
            if i < ri.len() {
                assert(rs[i] == ri[i]);
            }
        }
        assert forall|i: int| 0 <= i < rs.len() && rs[i].label is Translated implies #[trigger] rs[i].label->Translated_0
            <= code_of(cs, rt).len() by {
            if i < ri.len() {
                assert(rs[i] == ri[i]);
            }
        }
        assert forall|i: int| 0 <= i < ds.len() implies #[trigger] ds[i].1 <= code_of(cs, rt).len() by {
            if i < di.len() {
                assert(ds[i] == di[i]);
            }
        }
    }
}

/// Emits and links a parsed program: the linked function, or why it
/// cannot be linked.
pub fn compile(program: &Vec<Command>, rt: &Runtime) -> (r: Result<(Vec<u8>, LabelTable), LinkError>)
    requires
        forall|i: int| 0 <= i < program@.len() ==> is_source(#[trigger] program@[i]@),
    ensures
        match r {
            Ok((code, table)) => emitted(views(program@), *rt).len() <= i32::MAX && link_spec(
                emitted(views(program@), *rt),
                relocs_of(views(program@), *rt),
                defs_of(views(program@), *rt),
            ) == Ok::<Seq<u8>, LinkErrorView>(code@) && table.wf() && table@ == defs_table(
                defs_of(views(program@), *rt),
            ),
            Err(LinkError::CodeTooLarge) => emitted(views(program@), *rt).len() > i32::MAX,
            Err(e) => emitted(views(program@), *rt).len() <= i32::MAX && link_spec(
                emitted(views(program@), *rt),
                relocs_of(views(program@), *rt),
                defs_of(views(program@), *rt),
            ) == Err::<Seq<u8>, LinkErrorView>(e@),
        },
{
    let mut buf = emit(program, rt);
    if buf.code.len() > 0x7fff_ffff {
        return Err(LinkError::CodeTooLarge);
    }
    proof {
        let cs = views(program@);
        assert forall|i: int| 0 <= i < cs.len() implies is_source(#[trigger] cs[i]) by {
            assert(cs[i] == program@[i]@);
        }
        lemma_emitted_linkable(cs, *rt);
        let rs = relocs_of(cs, *rt);
        let ds = defs_of(cs, *rt);
        assert forall|i: int| 0 <= i < rs.len() implies #[trigger] rs[i].offset + 4 <= buf.code@.len() by {
            assert(rs[i].offset + 4 <= code_of(cs, *rt).len());
        }
        assert forall|i: int| 0 <= i < ds.len() implies #[trigger] ds[i].1 <= buf.code@.len() by {
            assert(ds[i].1 <= code_of(cs, *rt).len());
        }
        assert forall|i: int| 0 <= i < rs.len() && rs[i].label is Translated implies #[trigger] rs[i].label->Translated_0
            <= buf.code@.len() by {
            assert(rs[i].label->Translated_0 <= code_of(cs, *rt).len());
        }
    }
    match link(&mut buf.code, &buf.relocations, &buf.definitions) {
        Ok(table) => Ok((buf.code, table)),
        Err(e) => Err(e),
    }
}

} // verus!
