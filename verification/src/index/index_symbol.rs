//! Symbols recorded by the index: classes, methods and properties, with
//! the scope paths that locate them inside their file.

use vstd::prelude::*;

use crate::point::Point;
use crate::text::{ascii_bytes, bytes_to_string, chars_of_bytes};

verus! {

/// An unqualified symbol name.  Equality is case-sensitive.
#[derive(Debug)]
pub struct SymbolName(String);

impl View for SymbolName {
    type V = Seq<char>;

    closed spec fn view(&self) -> Seq<char> {
        self.0@
    }
}

impl SymbolName {
    /// A name spelled by a string slice.
    pub fn from(value: &str) -> (r: SymbolName)
        ensures
            r@ == value@,
    {
        SymbolName(value.to_owned())
    }

    /// A name spelled by an owned string.
    pub fn from_string(value: String) -> (r: SymbolName)
        ensures
            r@ == value@,
    {
        SymbolName(value)
    }

    /// A name spelled by source bytes (identifiers are ASCII in
    /// practice, and then the characters are the bytes).
    pub fn from_bytes(value: &[u8]) -> (r: SymbolName)
        ensures
            r@ == crate::text::decoded_of(value@),
            ascii_bytes(value@) ==> r@ == chars_of_bytes(value@),
    {
        SymbolName(bytes_to_string(value))
    }

    /// The name as an owned string.
    pub fn to_string(&self) -> (r: String)
        ensures
            r@ == self@,
    {
        self.0.clone()
    }
}

impl PartialEq for SymbolName {
    fn eq(&self, other: &Self) -> (r: bool) {
        self.0 == other.0
    }
}

impl vstd::std_specs::cmp::PartialEqSpecImpl for SymbolName {
    open spec fn obeys_eq_spec() -> bool {
        true
    }

    open spec fn eq_spec(&self, other: &SymbolName) -> bool {
        self@ == other@
    }
}

impl Clone for SymbolName {
    fn clone(&self) -> (r: Self)
        ensures
            r == *self,
    {
        SymbolName(self.0.clone())
    }
}

/// The views of a sequence of symbol names.
pub open spec fn names_view(v: Seq<SymbolName>) -> Seq<Seq<char>> {
    v.map_values(|n: SymbolName| n@)
}

/// A non-empty scope path: the enclosing names, outermost first.
#[derive(Debug)]
pub struct SymbolPath(Vec<SymbolName>);

impl View for SymbolPath {
    type V = Seq<Seq<char>>;

    closed spec fn view(&self) -> Seq<Seq<char>> {
        names_view(self.0@)
    }
}

impl SymbolPath {
    /// Build a path from its components; a path is never empty.
    pub fn new(path: Vec<SymbolName>) -> (r: SymbolPath)
        requires
            path@.len() > 0,
        ensures
            r@ == names_view(path@),
    {
        SymbolPath(path)
    }

    /// The number of components.
    pub fn len(&self) -> (r: usize)
        ensures
            r == self@.len(),
    {
        self.0.len()
    }

    /// The component at an index.
    pub fn component(&self, i: usize) -> (r: &SymbolName)
        requires
            i < self@.len(),
        ensures
            r@ == self@[i as int],
    {
        &self.0[i]
    }

    /// The unqualified name: the last component.
    pub fn name(&self) -> (r: &SymbolName)
        requires
            self@.len() > 0,
        ensures
            r@ == self@.last(),
    {
        &self.0[self.0.len() - 1]
    }

    /// The name of the enclosing scope, if the path has one.
    pub fn parent_name(&self) -> (r: Option<&SymbolName>)
        ensures
            self@.len() >= 2 ==> (r matches Some(n) && n@ == self@[self@.len() - 2]),
            self@.len() < 2 ==> r is None,
    {
        if self.0.len() >= 2 {
            Some(&self.0[self.0.len() - 2])
        } else {
            None
        }
    }

    /// Equality of two paths, component by component.
    pub fn matches(&self, other: &SymbolPath) -> (r: bool)
        ensures
            r == (self@ == other@),
    {
        if self.0.len() != other.0.len() {
            proof {
                assert(self@.len() != other@.len());
            }
            return false;
        }
        let mut i: usize = 0;
        while i < self.0.len()
            invariant
                self.0@.len() == other.0@.len(),
                i <= self.0@.len(),
                forall|j: int| 0 <= j < i ==> self@[j] == other@[j],
            decreases self.0@.len() - i,
        {
            if !(self.0[i] == other.0[i]) {
                proof {
                    assert(self@[i as int] != other@[i as int]);
                }
                return false;
            }
            i += 1;
        }
        proof {
            assert(self@ =~= other@);
        }
        true
    }
}

impl Clone for SymbolPath {
    fn clone(&self) -> (r: Self)
        ensures
            r@ == self@,
    {
        let mut names: Vec<SymbolName> = Vec::new();
        let mut i: usize = 0;
        while i < self.0.len()
            invariant
                i <= self.0@.len(),
                names@ == self.0@.take(i as int),
            decreases self.0@.len() - i,
        {
            names.push(self.0[i].clone());
            i += 1;
            proof {
                assert(names@ =~= self.0@.take(i as int));
            }
        }
        proof {
            assert(self.0@.take(self.0@.len() as int) =~= self.0@);
        }
        let r = SymbolPath(names);
        proof {
            assert(r@ =~~= self@);
        }
        r
    }
}

/// The kind of a method: a procedure returns nothing, a function returns
/// a value, and a setter assigns a property.
#[derive(Clone, Copy, Debug, PartialEq, Eq, Structural)]
pub enum MethodKind {
    Procedure,
    Function,
    Setter,
}

/// The mathematical reading of a symbol: names and paths as character
/// sequences, member lists as sequences.
#[verifier::ext_equal]
pub enum SymView {
    Class(ClassView),
    Method(MethodView),
    Property(PropView),
}

#[verifier::ext_equal]
pub struct ClassView {
    pub location: Point,
    pub name: Seq<char>,
    pub superclass: Seq<char>,
    pub members: Seq<SymView>,
}

#[verifier::ext_equal]
pub struct MethodView {
    pub location: Point,
    pub path: Seq<Seq<char>>,
    pub kind: MethodKind,
}

#[verifier::ext_equal]
pub struct PropView {
    pub location: Point,
    pub path: Seq<Seq<char>>,
}

impl SymView {
    /// The unqualified name of the symbol.
    pub open spec fn name(self) -> Seq<char> {
        match self {
            SymView::Class(c) => c.name,
            SymView::Method(m) => m.path.last(),
            SymView::Property(p) => p.path.last(),
        }
    }

    /// A member of a class named `class_name`: a method or property whose
    /// path is exactly `[class_name, own name]`.
    pub open spec fn member_wf(self, class_name: Seq<char>) -> bool {
        match self {
            SymView::Class(_) => false,
            SymView::Method(m) => m.path.len() == 2 && m.path[0] == class_name,
            SymView::Property(p) => p.path.len() == 2 && p.path[0] == class_name,
        }
    }

    /// Well-formedness: paths are non-empty, and a class's members carry
    /// the class-qualified two-component path.
    pub open spec fn wf(self) -> bool {
        match self {
            SymView::Class(c) => forall|i: int|
                0 <= i < c.members.len() ==> (#[trigger] c.members[i]).member_wf(c.name),
            SymView::Method(m) => m.path.len() > 0,
            SymView::Property(p) => p.path.len() > 0,
        }
    }

    /// Shallow matching: same variant and same qualified name or path.
    /// Member lists are not compared.
    pub open spec fn matching(self, other: SymView) -> bool {
        match (self, other) {
            (SymView::Class(a), SymView::Class(b)) => a.name == b.name,
            (SymView::Method(a), SymView::Method(b)) => a.path == b.path,
            (SymView::Property(a), SymView::Property(b)) => a.path == b.path,
            _ => false,
        }
    }
}

/// The reading of a symbol value.
pub open spec fn sym_view(s: IndexSymbol) -> SymView
    decreases s,
{
    match s {
        IndexSymbol::Class(c) => SymView::Class(
            ClassView {
                location: c.location,
                name: c.name@,
                superclass: c.superclass@,
                members: syms_view(c.members@),
            },
        ),
        IndexSymbol::Method(m) => SymView::Method(
            MethodView { location: m.location, path: m.symbol_path@, kind: m.kind },
        ),
        IndexSymbol::Property(p) => SymView::Property(
            PropView { location: p.location, path: p.symbol_path@ },
        ),
    }
}

/// The readings of a sequence of symbols.
pub open spec fn syms_view(ss: Seq<IndexSymbol>) -> Seq<SymView>
    decreases ss,
{
    if ss.len() == 0 {
        Seq::empty()
    } else {
        seq![sym_view(ss[0])] + syms_view(ss.skip(1))
    }
}

/// A sequence of symbols reads element by element.
pub broadcast proof fn lemma_syms_view_len(ss: Seq<IndexSymbol>)
    ensures
        (#[trigger] syms_view(ss)).len() == ss.len(),
    decreases ss,
{
    if ss.len() > 0 {
        lemma_syms_view_len(ss.skip(1));
    }
}

pub broadcast proof fn lemma_syms_view_index(ss: Seq<IndexSymbol>, i: int)
    requires
        0 <= i < ss.len(),
    ensures
        #[trigger] syms_view(ss)[i] == sym_view(ss[i]),
    decreases ss,
{
    lemma_syms_view_len(ss);
    if i > 0 {
        lemma_syms_view_index(ss.skip(1), i - 1);
    }
}

/// Reading a pushed symbol extends the reading of the sequence.
pub proof fn lemma_syms_view_push(ss: Seq<IndexSymbol>, x: IndexSymbol)
    ensures
        syms_view(ss.push(x)) == syms_view(ss).push(sym_view(x)),
    decreases ss,
{
    let p = ss.push(x);
    if ss.len() == 0 {
        assert(p.skip(1) =~= Seq::<IndexSymbol>::empty());
        assert(syms_view(p.skip(1)) == Seq::<SymView>::empty());
        assert(syms_view(ss) == Seq::<SymView>::empty());
        assert(syms_view(p) == seq![sym_view(x)] + Seq::<SymView>::empty());
        assert(seq![sym_view(x)] + Seq::<SymView>::empty() =~= Seq::<SymView>::empty().push(
            sym_view(x),
        ));
    } else {
        assert(p.skip(1) =~= ss.skip(1).push(x));
        lemma_syms_view_push(ss.skip(1), x);
        assert(p[0] == ss[0]);
        assert(syms_view(p) == seq![sym_view(ss[0])] + syms_view(ss.skip(1)).push(sym_view(x)));
        assert(seq![sym_view(ss[0])] + syms_view(ss.skip(1)).push(sym_view(x)) =~= (seq![
            sym_view(ss[0]),
        ] + syms_view(ss.skip(1))).push(sym_view(x)));
        assert(syms_view(ss) == seq![sym_view(ss[0])] + syms_view(ss.skip(1)));
    }
}

impl View for IndexSymbol {
    type V = SymView;

    open spec fn view(&self) -> SymView {
        sym_view(*self)
    }
}

/// A symbol extracted from a source file.
#[derive(Debug)]
pub enum IndexSymbol {
    Class(ClassSymbol),
    Method(MethodSymbol),
    Property(PropertySymbol),
}

/// A class: a named entity with a superclass reference and members.
#[derive(Debug)]
pub struct ClassSymbol {
    pub location: Point,
    pub name: SymbolName,
    pub superclass: SymbolName,
    pub members: Vec<IndexSymbol>,
}

/// A method declared inside a class.
#[derive(Debug)]
pub struct MethodSymbol {
    pub location: Point,
    pub symbol_path: SymbolPath,
    pub kind: MethodKind,
}

/// A property declared inside a class.
#[derive(Debug)]
pub struct PropertySymbol {
    pub location: Point,
    pub symbol_path: SymbolPath,
}

impl IndexSymbol {
    /// The unqualified name.
    pub fn name(&self) -> (r: &SymbolName)
        requires
            self@.wf(),
        ensures
            r@ == self@.name(),
    {
        match self {
            IndexSymbol::Class(class_symbol) => &class_symbol.name,
            IndexSymbol::Method(method_symbol) => method_symbol.symbol_path.name(),
            IndexSymbol::Property(property_symbol) => property_symbol.symbol_path.name(),
        }
    }

    /// Shallow matching, executable form: same variant and same qualified
    /// name or path; member lists are not compared.
    pub fn is_matching(&self, other: &Self) -> (r: bool)
        ensures
            r == self@.matching(other@),
    {
        match (self, other) {
            (IndexSymbol::Class(class_symbol), IndexSymbol::Class(other_class_symbol)) => {
                class_symbol.name == other_class_symbol.name
            },
            (IndexSymbol::Method(method_symbol), IndexSymbol::Method(other_method_symbol)) => {
                method_symbol.symbol_path.matches(&other_method_symbol.symbol_path)
            },
            (
                IndexSymbol::Property(property_symbol),
                IndexSymbol::Property(other_property_symbol),
            ) => {
                property_symbol.symbol_path.matches(&other_property_symbol.symbol_path)
            },
            _ => false,
        }
    }
}

impl Clone for IndexSymbol {
    fn clone(&self) -> (r: Self)
        ensures
            r@ == self@,
        decreases *self,
    {
        broadcast use lemma_syms_view_len, lemma_syms_view_index;

        match self {
            IndexSymbol::Class(c) => {
                let mut members: Vec<IndexSymbol> = Vec::new();
                proof {
                    assert(syms_view(members@) =~= syms_view(c.members@).take(0));
                }
                let mut i: usize = 0;
                while i < c.members.len()
                    invariant
                        i <= c.members@.len(),
                        *self == IndexSymbol::Class(*c),
                        syms_view(members@) == syms_view(c.members@).take(i as int),
                    decreases c.members@.len() - i,
                {
                    proof {
                        broadcast use lemma_syms_view_len, lemma_syms_view_index;

                        assert(decreases_to!(*self => self->Class_0));
                        assert(self->Class_0 == *c);
                        assert(decreases_to!(*self => c.members@[i as int]));
                    }
                    members.push(c.members[i].clone());
                    i += 1;
                    proof {
                        broadcast use lemma_syms_view_len, lemma_syms_view_index;

                        assert(syms_view(members@) =~= syms_view(c.members@).take(i as int));
                    }
                }
                proof {
                    assert(syms_view(c.members@).take(c.members@.len() as int) =~= syms_view(
                        c.members@,
                    ));
                }
                let r = IndexSymbol::Class(
                    ClassSymbol {
                        location: c.location,
                        name: c.name.clone(),
                        superclass: c.superclass.clone(),
                        members,
                    },
                );
                proof {
                    assert(r@ =~~= self@);
                }
                r
            },
            IndexSymbol::Method(m) => IndexSymbol::Method(
                MethodSymbol {
                    location: m.location,
                    symbol_path: m.symbol_path.clone(),
                    kind: m.kind,
                },
            ),
            IndexSymbol::Property(p) => IndexSymbol::Property(
                PropertySymbol { location: p.location, symbol_path: p.symbol_path.clone() },
            ),
        }
    }
}

/// A snapshot of a symbol together with the path of the file that
/// declares it.
#[derive(Debug)]
pub struct IndexSymbolSnapshot<T> {
    pub path: String,
    pub symbol: T,
}

/// A reference from a lookup table into the files map: the file and the
/// scope path that re-resolve to a live symbol.
#[derive(Debug)]
pub struct IndexSymbolRef {
    pub file_ref: crate::index::index_file::IndexFileRef,
    pub symbol_path: SymbolPath,
}

/// The reading of a symbol reference: the file name and the path.
pub struct RefView {
    pub file: Seq<char>,
    pub path: Seq<Seq<char>>,
}

impl View for IndexSymbolRef {
    type V = RefView;

    open spec fn view(&self) -> RefView {
        RefView { file: self.file_ref@, path: self.symbol_path@ }
    }
}

impl IndexSymbolRef {
    pub fn new(
        file_ref: crate::index::index_file::IndexFileRef,
        symbol_path: SymbolPath,
    ) -> (r: IndexSymbolRef)
        ensures
            r.file_ref == file_ref,
            r.symbol_path == symbol_path,
    {
        IndexSymbolRef { file_ref, symbol_path }
    }
}

impl Clone for IndexSymbolRef {
    fn clone(&self) -> (r: Self)
        ensures
            r@ == self@,
    {
        IndexSymbolRef {
            file_ref: self.file_ref.clone(),
            symbol_path: self.symbol_path.clone(),
        }
    }
}

/// A symbol variant that can be projected out of an `IndexSymbol`.
pub trait IndexSymbolType: Sized {
    /// The projection this trait's `from_index_symbol` returns.
    spec fn spec_of_symbol(s: &IndexSymbol) -> Option<&Self>;

    /// Project the variant out of a symbol, if it has this type.
    fn from_index_symbol(index_symbol: &IndexSymbol) -> (r: Option<&Self>)
        ensures
            r == Self::spec_of_symbol(index_symbol),
    ;
}

impl IndexSymbolType for ClassSymbol {
    open spec fn spec_of_symbol(s: &IndexSymbol) -> Option<&ClassSymbol> {
        match s {
            IndexSymbol::Class(class_symbol) => Some(class_symbol),
            _ => None,
        }
    }

    fn from_index_symbol(index_symbol: &IndexSymbol) -> (r: Option<&ClassSymbol>) {
        match index_symbol {
            IndexSymbol::Class(class_symbol) => Some(class_symbol),
            _ => None,
        }
    }
}

} // verus!
