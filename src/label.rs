//! Labels, and the table that binds label names to code offsets.

use vstd::prelude::*;

verus! {

/// The arithmetic width of operand values and heap cells.
pub type Number = i64;

/// A byte offset into an emitted code buffer.
pub type Address = usize;

/// A jump target: either a raw bit-string name (space = `false`,
/// tab = `true`) or an offset that the name was resolved to.
#[derive(Clone, Debug, Hash, PartialEq, Eq)]
pub enum Label {
    Name(Vec<bool>),
    Translated(Address),
}

/// The mathematical model of a [`Label`].
pub ghost enum LabelView {
    Name(Seq<bool>),
    Translated(Address),
}

impl View for Label {
    type V = LabelView;

    open spec fn view(&self) -> LabelView {
        match self {
            Label::Name(bits) => LabelView::Name(bits@),
            Label::Translated(a) => LabelView::Translated(*a),
        }
    }
}

/// Decides whether two bit-strings are equal.
pub fn bits_equal(a: &Vec<bool>, b: &Vec<bool>) -> (r: bool)
    ensures
        r == (a@ == b@),
{
    if a.len() != b.len() {
        return false;
    }
    let mut i: usize = 0;
    while i < a.len()
        invariant
            a@.len() == b@.len(),
            i <= a@.len(),
            forall|k: int| 0 <= k < i ==> a@[k] == b@[k],
        decreases a@.len() - i,
    {
        if a[i] != b[i] {
            return false;
        }
        i = i + 1;
    }
    assert(a@ =~= b@);
    true
}

/// Copies a bit-string.
pub fn copy_bits(a: &Vec<bool>) -> (r: Vec<bool>)
    ensures
        r@ == a@,
{
    let mut r: Vec<bool> = Vec::new();
    let mut i: usize = 0;
    while i < a.len()
        invariant
            i <= a@.len(),
            r@ == a@.subrange(0, i as int),
        decreases a@.len() - i,
    {
        r.push(a[i]);
        i = i + 1;
        assert(r@ =~= a@.subrange(0, i as int));
    }
    assert(a@.subrange(0, a@.len() as int) =~= a@);
    r
}

/// One definition of a label table: a name and the offset it stands for.
pub struct LabelDef {
    pub name: Vec<bool>,
    pub offset: Address,
}

/// The label names of a sequence of definitions, in order.
pub open spec fn def_names(defs: Seq<LabelDef>) -> Seq<Seq<bool>> {
    defs.map_values(|d: LabelDef| d.name@)
}

/// The mapping that a sequence of definitions with distinct names describes.
pub open spec fn defs_map(defs: Seq<LabelDef>) -> Map<Seq<bool>, Address>
    decreases defs.len(),
{
    if defs.len() == 0 {
        Map::empty()
    } else {
        defs_map(defs.drop_last()).insert(defs.last().name@, defs.last().offset)
    }
}

/// A mapping from label names to code offsets, each name defined once.
pub struct LabelTable {
    defs: Vec<LabelDef>,
}

impl View for LabelTable {
    type V = Map<Seq<bool>, Address>;

    closed spec fn view(&self) -> Map<Seq<bool>, Address> {
        defs_map(self.defs@)
    }
}

proof fn lemma_defs_map(defs: Seq<LabelDef>)
    requires
        def_names(defs).no_duplicates(),
    ensures
        forall|n: Seq<bool>|
            defs_map(defs).contains_key(n) <==> exists|i: int|
                0 <= i < defs.len() && #[trigger] defs[i].name@ == n,
        forall|i: int|
            0 <= i < defs.len() ==> defs_map(defs)[#[trigger] defs[i].name@] == defs[i].offset,
        defs_map(defs).dom().finite(),
        defs_map(defs).len() == defs.len(),
    decreases defs.len(),
{
    if defs.len() > 0 {
        let init = defs.drop_last();
        assert(def_names(init) =~= def_names(defs).drop_last());
        lemma_defs_map(init);
        assert forall|n: Seq<bool>|
            defs_map(defs).contains_key(n) <==> exists|i: int|
                0 <= i < defs.len() && #[trigger] defs[i].name@ == n by {
            if defs_map(defs).contains_key(n) && n != defs.last().name@ {
                let i = choose|i: int| 0 <= i < init.len() && #[trigger] init[i].name@ == n;
                assert(defs[i].name@ == n);
            }
            if exists|i: int| 0 <= i < defs.len() && #[trigger] defs[i].name@ == n {
                let i = choose|i: int| 0 <= i < defs.len() && #[trigger] defs[i].name@ == n;
                if i < init.len() {
                    assert(init[i].name@ == n);
                }
            }
        }
        assert forall|i: int| 0 <= i < defs.len() implies defs_map(defs)[#[trigger] defs[i].name@]
            == defs[i].offset by {
            if i < defs.len() - 1 {
                assert(def_names(defs)[i] != def_names(defs)[defs.len() - 1]);
                assert(init[i].name@ == defs[i].name@);
            }
        }
        assert(!defs_map(init).contains_key(defs.last().name@)) by {
            if defs_map(init).contains_key(defs.last().name@) {
                let i = choose|i: int| 0 <= i < init.len() && #[trigger] init[i].name@ == defs.last().name@;
                assert(def_names(defs)[i] == def_names(defs)[defs.len() - 1]);
            }
        }
    }
}

impl LabelTable {
    /// Each name is defined at most once.
    pub closed spec fn wf(&self) -> bool {
        def_names(self.defs@).no_duplicates()
    }

    /// An empty table.
    pub fn new() -> (r: LabelTable)
        ensures
            r.wf(),
            r@ == Map::<Seq<bool>, Address>::empty(),
    {
        let r = LabelTable { defs: Vec::new() };
        assert(def_names(r.defs@) =~= Seq::<Seq<bool>>::empty());
        r
    }

    /// The number of names defined.
    pub fn len(&self) -> (r: usize)
        requires
            self.wf(),
        ensures
            r == self@.len(),
    {
        proof {
            lemma_defs_map(self.defs@);
        }
        self.defs.len()
    }

    /// Looks a name up.
    pub fn get(&self, name: &Vec<bool>) -> (r: Option<Address>)
        requires
            self.wf(),
        ensures
            r == (if self@.contains_key(name@) {
                Some(self@[name@])
            } else {
                None
            }),
    {
        let mut i: usize = 0;
        while i < self.defs.len()
            invariant
                self.wf(),
                i <= self.defs@.len(),
                forall|k: int| 0 <= k < i ==> self.defs@[k].name@ != name@,
            decreases self.defs@.len() - i,
        {
            if bits_equal(&self.defs[i].name, name) {
                proof {
                    lemma_defs_map(self.defs@);
                }
                return Some(self.defs[i].offset);
            }
            i = i + 1;
        }
        proof {
            lemma_defs_map(self.defs@);
        }
        None
    }

    /// Binds `name` to `offset`; fails, leaving the table as it was, when
    /// `name` is already bound.
    pub fn define(&mut self, name: &Vec<bool>, offset: Address) -> (r: Result<(), ()>)
        requires
            old(self).wf(),
        ensures
            final(self).wf(),
            r is Ok <==> !old(self)@.contains_key(name@),
            r is Ok ==> final(self)@ == old(self)@.insert(name@, offset),
            r is Err ==> final(self)@ == old(self)@,
    {
        if self.get(name).is_some() {
            return Err(());
        }
        proof {
            lemma_defs_map(self.defs@);
        }
        let ghost before = self.defs@;
        self.defs.push(LabelDef { name: copy_bits(name), offset });
        proof {
            assert(self.defs@.drop_last() =~= before);
            assert(def_names(self.defs@) =~= def_names(before).push(name@));
            assert forall|i: int, j: int|
                0 <= i < j < def_names(self.defs@).len() implies def_names(self.defs@)[i]
                != def_names(self.defs@)[j] by {
                if j == before.len() {
                    assert(before[i].name@ == def_names(before)[i]);
                }
            }
        }
        Ok(())
    }
}

impl Label {
    /// Resolves a label name through `mapping`; a label that is already
    /// resolved is returned as it is. `None` when the name is unbound.
    pub fn replace(self, mapping: &LabelTable) -> (r: Option<Label>)
        requires
            mapping.wf(),
        ensures
            r == (match self@ {
                LabelView::Name(n) => if mapping@.contains_key(n) {
                    Some(Label::Translated(mapping@[n]))
                } else {
                    None
                },
                LabelView::Translated(_) => Some(self),
            }),
    {
        match self {
            Label::Name(name) => match mapping.get(&name) {
                Some(addr) => Some(Label::Translated(addr)),
                None => None,
            },
            Label::Translated(a) => Some(Label::Translated(a)),
        }
    }
}

} // verus!
