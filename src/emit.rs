//! Emission of a whole program into one code buffer, and the linker that
//! patches label references in it.

use vstd::prelude::*;
use crate::command::{epilogue, le_bytes, prologue, template, Command, CommandView, Runtime};
use crate::label::{copy_bits, Label, LabelDef, LabelView};

verus! {

/// How a patched displacement is used: by `call`, by `jmp` or by a
/// conditional jump.
#[derive(Clone, Copy, Debug, PartialEq, Eq, Structural)]
pub enum RelocKind {
    Rel32Call,
    Rel32Jmp,
    Rel32Jcc,
}

/// A 32-bit displacement at `offset` in the code buffer that must come to
/// point at `label`.
pub struct Relocation {
    pub offset: usize,
    pub label: Label,
    pub kind: RelocKind,
}

/// The mathematical model of a [`Relocation`].
pub ghost struct RelocView {
    pub offset: usize,
    pub label: LabelView,
    pub kind: RelocKind,
}

impl View for Relocation {
    type V = RelocView;

    open spec fn view(&self) -> RelocView {
        RelocView { offset: self.offset, label: self.label@, kind: self.kind }
    }
}

/// The output of emission: the code, the places that the linker patches,
/// and where each label is marked.
pub struct CodeBuffer {
    pub code: Vec<u8>,
    pub relocations: Vec<Relocation>,
    pub definitions: Vec<LabelDef>,
}

pub open spec fn reloc_views(rs: Seq<Relocation>) -> Seq<RelocView> {
    rs.map_values(|r: Relocation| r@)
}

pub open spec fn def_views(ds: Seq<LabelDef>) -> Seq<(Seq<bool>, usize)> {
    ds.map_values(|d: LabelDef| (d.name@, d.offset))
}

/// Where in an instruction's code its displacement stands, and its kind.
pub open spec fn reloc_site(c: CommandView) -> Option<(nat, RelocKind)> {
    match c {
        CommandView::Call(_) => Some((1, RelocKind::Rel32Call)),
        CommandView::Jump(_) => Some((1, RelocKind::Rel32Jmp)),
        CommandView::JumpZero(_) | CommandView::JumpNegative(_) => Some(
            (27, RelocKind::Rel32Jcc),
        ),
        _ => None,
    }
}

/// The label that a control transfer goes to.
pub open spec fn target_of(c: CommandView) -> LabelView {
    match c {
        CommandView::Mark(l) | CommandView::Call(l) | CommandView::Jump(l)
        | CommandView::JumpZero(l) | CommandView::JumpNegative(l) => l,
        _ => LabelView::Translated(0),
    }
}

/// The prologue followed by the code of each instruction.
pub open spec fn code_of(cs: Seq<CommandView>, rt: Runtime) -> Seq<u8>
    decreases cs.len(),
{
    if cs.len() == 0 {
        prologue()
    } else {
        code_of(cs.drop_last(), rt) + template(cs.last(), rt)
    }
}

/// The relocations of the control transfers, in program order.
pub open spec fn relocs_of(cs: Seq<CommandView>, rt: Runtime) -> Seq<RelocView>
    decreases cs.len(),
{
    if cs.len() == 0 {
        Seq::empty()
    } else {
        let init = cs.drop_last();
        match reloc_site(cs.last()) {
            Some((k, kind)) => relocs_of(init, rt).push(
                RelocView {
                    offset: (code_of(init, rt).len() + k) as usize,
                    label: target_of(cs.last()),
                    kind,
                },
            ),
            None => relocs_of(init, rt),
        }
    }
}

/// Each marked label name with the offset of the code that follows it.
pub open spec fn defs_of(cs: Seq<CommandView>, rt: Runtime) -> Seq<(Seq<bool>, usize)>
    decreases cs.len(),
{
    if cs.len() == 0 {
        Seq::empty()
    } else {
        let init = cs.drop_last();
        match cs.last() {
            CommandView::Mark(LabelView::Name(n)) => defs_of(init, rt).push(
                (n, code_of(init, rt).len() as usize),
            ),
            _ => defs_of(init, rt),
        }
    }
}

/// The whole function: prologue, instructions, epilogue.
pub open spec fn emitted(cs: Seq<CommandView>, rt: Runtime) -> Seq<u8> {
    code_of(cs, rt) + epilogue()
}

pub proof fn lemma_le_bytes_len(n: nat, count: nat)
    ensures
        le_bytes(n, count).len() == count,
    decreases count,
{
    if count > 0 {
        lemma_le_bytes_len(n / 256, (count - 1) as nat);
    }
}

pub proof fn lemma_site_in_template(c: CommandView, rt: Runtime)
    ensures
        match reloc_site(c) {
            Some((k, _)) => k + 4 <= template(c, rt).len(),
            None => true,
        },
{
    lemma_le_bytes_len(rt.context as nat, 8);
    lemma_le_bytes_len(rt.pop_stack as nat, 8);
}

/// An equal copy of a label.
pub fn copy_label(l: &Label) -> (r: Label)
    ensures
        r@ == l@,
{
    match l {
        Label::Name(bits) => Label::Name(copy_bits(bits)),
        Label::Translated(a) => Label::Translated(*a),
    }
}

/// Emits a program between the prologue and the epilogue, recording each
/// label reference to patch and each label definition.
pub fn emit(program: &Vec<Command>, rt: &Runtime) -> (r: CodeBuffer)
    ensures
        r.code@ == emitted(crate::parser::views(program@), *rt),
        reloc_views(r.relocations@) == relocs_of(crate::parser::views(program@), *rt),
        def_views(r.definitions@) == defs_of(crate::parser::views(program@), *rt),
{
    let ghost cs = crate::parser::views(program@);
    let mut code: Vec<u8> = Vec::new();
    let mut relocations: Vec<Relocation> = Vec::new();
    let mut definitions: Vec<LabelDef> = Vec::new();
    Command::Initialize.assemble_into(rt, &mut code);
    assert(code@ =~= prologue());
    let mut i: usize = 0;
    assert(cs.subrange(0, 0) =~= Seq::<CommandView>::empty());
    while i < program.len()
        invariant
            i <= program@.len(),
            cs == crate::parser::views(program@),
            code@ == code_of(cs.subrange(0, i as int), *rt),
            reloc_views(relocations@) == relocs_of(cs.subrange(0, i as int), *rt),
            def_views(definitions@) == defs_of(cs.subrange(0, i as int), *rt),
        decreases program@.len() - i,
    {
        let c = &program[i];
        let off = code.len();
        let ghost pre = cs.subrange(0, i as int);
        let ghost next = cs.subrange(0, i as int + 1);
        assert(next.drop_last() =~= pre);
        assert(next.last() == c@);
        c.assemble_into(rt, &mut code);
        let end = code.len();
        proof {
            lemma_site_in_template(c@, *rt);
        }
        match c {
            Command::Mark(Label::Name(bits)) => {
                definitions.push(LabelDef { name: copy_bits(bits), offset: off });
                assert(def_views(definitions@) =~= defs_of(next, *rt));
            },
            Command::Call(l) => {
                relocations.push(
                    Relocation { offset: off + 1, label: copy_label(l), kind: RelocKind::Rel32Call },
                );
                assert(reloc_views(relocations@) =~= relocs_of(next, *rt));
            },
            Command::Jump(l) => {
                relocations.push(
                    Relocation { offset: off + 1, label: copy_label(l), kind: RelocKind::Rel32Jmp },
                );
                assert(reloc_views(relocations@) =~= relocs_of(next, *rt));
            },
            Command::JumpZero(l) | Command::JumpNegative(l) => {
                relocations.push(
                    Relocation { offset: off + 27, label: copy_label(l), kind: RelocKind::Rel32Jcc },
                );
                assert(reloc_views(relocations@) =~= relocs_of(next, *rt));
            },
            _ => {},
        }
        assert(def_views(definitions@) =~= defs_of(next, *rt));
        assert(reloc_views(relocations@) =~= relocs_of(next, *rt));
        i = i + 1;
    }
    assert(cs.subrange(0, program@.len() as int) =~= cs);
    Command::Deinitialize.assemble_into(rt, &mut code);
    CodeBuffer { code, relocations, definitions }
}

} // verus!
